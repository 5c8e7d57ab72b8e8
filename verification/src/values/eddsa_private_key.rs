use vstd::prelude::*;
use crate::curves::{bytes_all_zero, ed25519_order, ed25519_order_le, is_ed25519_scalar};
use crate::modular::{bytes_lt, le_val};
use crate::values::{clear_wf, copy_bytes, ClearValue, NadaValue};
use crate::ValueError;

verus! {

/// A whole EdDSA signing key: 32 little-endian bytes, non-zero and below the
/// ed25519 group order.
#[derive(Debug, PartialEq)]
pub struct EddsaPrivateKey {
    pub inner: NadaValue,
}

impl EddsaPrivateKey {
    /// The held value is an EdDSA private key and well formed.
    pub open spec fn wf(self) -> bool {
        self.inner is EddsaPrivateKey && clear_wf(self.inner@)
    }

    /// Returns a new [`EddsaPrivateKey`] from little-endian bytes: exactly 32
    /// bytes, not zero, below the group order.
    pub fn new(value: Vec<u8>) -> (r: Result<EddsaPrivateKey, ValueError>)
        ensures
            match r {
                Ok(w) => {
                    &&& value@.len() == 32
                    &&& le_val(value@) != 0
                    &&& le_val(value@) < ed25519_order()
                    &&& w.inner@ == ClearValue::EddsaPrivateKey(value@)
                    &&& w.wf()
                },
                Err(e) => {
                    &&& e == ValueError::KeyShareInvalid
                    &&& value@.len() != 32 || le_val(value@) == 0 || le_val(value@)
                        >= ed25519_order()
                },
            },
    {
        if value.len() != 32 {
            return Err(ValueError::KeyShareInvalid);
        }
        let q = ed25519_order_le();
        if !bytes_lt(&value, &q) {
            return Err(ValueError::KeyShareInvalid);
        }
        if bytes_all_zero(&value) {
            return Err(ValueError::KeyShareInvalid);
        }
        Ok(EddsaPrivateKey { inner: NadaValue::EddsaPrivateKey(value) })
    }

    /// The key bytes, little-endian.
    pub fn get_value(&self) -> (r: Vec<u8>)
        requires
            self.wf(),
        ensures
            self.inner@ == ClearValue::EddsaPrivateKey(r@),
    {
        match &self.inner {
            NadaValue::EddsaPrivateKey(x) => {
                let c = copy_bytes(x);
                proof {
                    assert(self.inner@ == ClearValue::EddsaPrivateKey(c@));
                }
                c
            }
            _ => {
                proof {
                    assert(false);
                }
                Vec::new()
            }
        }
    }

    /// Replace the key, with the same checks as construction.
    pub fn set_value(&mut self, value: Vec<u8>) -> (r: Result<(), ValueError>)
        ensures
            match r {
                Ok(()) => final(self).inner@ == ClearValue::EddsaPrivateKey(value@) && final(self).wf(),
                Err(e) => e == ValueError::KeyShareInvalid && *final(self) == *old(self),
            },
    {
        match Self::new(value) {
            Ok(k) => {
                *self = k;
                Ok(())
            }
            Err(e) => Err(e),
        }
    }

    /// Wrap a clear value of the right variant.
    pub fn try_from_value(value: NadaValue) -> (r: Result<EddsaPrivateKey, ValueError>)
        requires
            clear_wf(value@),
        ensures
            match r {
                Ok(w) => w.inner@ == value@ && value is EddsaPrivateKey && w.wf(),
                Err(e) => e == ValueError::UnsupportedVariant && !(value is EddsaPrivateKey),
            },
    {
        match value {
            NadaValue::EddsaPrivateKey(x) => Ok(
                EddsaPrivateKey { inner: NadaValue::EddsaPrivateKey(x) },
            ),
            _ => Err(ValueError::UnsupportedVariant),
        }
    }
}

} // verus!
