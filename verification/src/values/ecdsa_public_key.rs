use vstd::prelude::*;
use crate::values::{clear_wf, copy_bytes, ClearValue, NadaValue};
use crate::ValueError;

verus! {

/// A 33-byte compressed ECDSA public key encoding.
#[derive(Debug, PartialEq)]
pub struct EcdsaPublicKey {
    pub inner: NadaValue,
}

impl EcdsaPublicKey {
    /// The held value is of this wrapper's variant and well formed.
    pub open spec fn wf(self) -> bool {
        self.inner is EcdsaPublicKey && clear_wf(self.inner@)
    }

    /// Returns a new [`EcdsaPublicKey`]; the bytes must be exactly 33 long.
    pub fn new(value: Vec<u8>) -> (r: Result<EcdsaPublicKey, ValueError>)
        ensures
            match r {
                Ok(w) => value@.len() == 33 && w.inner@ == ClearValue::EcdsaPublicKey(value@)
                    && w.wf(),
                Err(e) => e == ValueError::FormatError && value@.len() != 33,
            },
    {
        if value.len() != 33 {
            return Err(ValueError::FormatError);
        }
        Ok(EcdsaPublicKey { inner: NadaValue::EcdsaPublicKey(value) })
    }

    /// The bytes held inside.
    pub fn get_value(&self) -> (r: Vec<u8>)
        requires
            self.wf(),
        ensures
            self.inner@ == ClearValue::EcdsaPublicKey(r@),
    {
        match &self.inner {
            NadaValue::EcdsaPublicKey(x) => {
                let c = copy_bytes(x);
                proof {
                    assert(self.inner@ == ClearValue::EcdsaPublicKey(c@));
                }
                c
            }
            _ => {
                proof {
                    assert(false);
                }
                Vec::new()
            }
        }
    }

    /// Replace the bytes held inside; the bytes must be exactly 33 long.
    pub fn set_value(&mut self, value: Vec<u8>) -> (r: Result<(), ValueError>)
        ensures
            match r {
                Ok(()) => value@.len() == 33 && final(self).inner@ == ClearValue::EcdsaPublicKey(value@) && final(self).wf(),
                Err(e) => e == ValueError::FormatError && value@.len() != 33 && *final(self)
                    == *old(self),
            },
    {
        if value.len() != 33 {
            return Err(ValueError::FormatError);
        }
        self.inner = NadaValue::EcdsaPublicKey(value);
        Ok(())
    }

    /// Wrap a clear value of the right variant.
    pub fn try_from_value(value: NadaValue) -> (r: Result<EcdsaPublicKey, ValueError>)
        requires
            clear_wf(value@),
        ensures
            match r {
                Ok(w) => w.inner@ == value@ && value is EcdsaPublicKey && w.wf(),
                Err(e) => e == ValueError::UnsupportedVariant && !(value is EcdsaPublicKey),
            },
    {
        match value {
            NadaValue::EcdsaPublicKey(x) => Ok(EcdsaPublicKey { inner: NadaValue::EcdsaPublicKey(x) }),
            _ => Err(ValueError::UnsupportedVariant),
        }
    }
}

} // verus!
