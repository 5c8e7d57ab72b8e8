use vstd::prelude::*;
use crate::values::{clear_wf, copy_bytes, ClearValue, NadaValue};
use crate::ValueError;

verus! {

/// A 32-byte message digest to be signed under ECDSA.
#[derive(Debug, PartialEq)]
pub struct EcdsaDigestMessage {
    pub inner: NadaValue,
}

impl EcdsaDigestMessage {
    /// The held value is of this wrapper's variant and well formed.
    pub open spec fn wf(self) -> bool {
        self.inner is EcdsaDigestMessage && clear_wf(self.inner@)
    }

    /// Returns a new [`EcdsaDigestMessage`]; the bytes must be exactly 32 long.
    pub fn new(value: Vec<u8>) -> (r: Result<EcdsaDigestMessage, ValueError>)
        ensures
            match r {
                Ok(w) => value@.len() == 32 && w.inner@ == ClearValue::EcdsaDigestMessage(value@)
                    && w.wf(),
                Err(e) => e == ValueError::FormatError && value@.len() != 32,
            },
    {
        if value.len() != 32 {
            return Err(ValueError::FormatError);
        }
        Ok(EcdsaDigestMessage { inner: NadaValue::EcdsaDigestMessage(value) })
    }

    /// The bytes held inside.
    pub fn get_value(&self) -> (r: Vec<u8>)
        requires
            self.wf(),
        ensures
            self.inner@ == ClearValue::EcdsaDigestMessage(r@),
    {
        match &self.inner {
            NadaValue::EcdsaDigestMessage(x) => {
                let c = copy_bytes(x);
                proof {
                    assert(self.inner@ == ClearValue::EcdsaDigestMessage(c@));
                }
                c
            }
            _ => {
                proof {
                    assert(false);
                }
                Vec::new()
            }
        }
    }

    /// Replace the bytes held inside; the bytes must be exactly 32 long.
    pub fn set_value(&mut self, value: Vec<u8>) -> (r: Result<(), ValueError>)
        ensures
            match r {
                Ok(()) => value@.len() == 32 && final(self).inner@ == ClearValue::EcdsaDigestMessage(value@) && final(self).wf(),
                Err(e) => e == ValueError::FormatError && value@.len() != 32 && *final(self)
                    == *old(self),
            },
    {
        if value.len() != 32 {
            return Err(ValueError::FormatError);
        }
        self.inner = NadaValue::EcdsaDigestMessage(value);
        Ok(())
    }

    /// Wrap a clear value of the right variant.
    pub fn try_from_value(value: NadaValue) -> (r: Result<EcdsaDigestMessage, ValueError>)
        requires
            clear_wf(value@),
        ensures
            match r {
                Ok(w) => w.inner@ == value@ && value is EcdsaDigestMessage && w.wf(),
                Err(e) => e == ValueError::UnsupportedVariant && !(value is EcdsaDigestMessage),
            },
    {
        match value {
            NadaValue::EcdsaDigestMessage(x) => Ok(EcdsaDigestMessage { inner: NadaValue::EcdsaDigestMessage(x) }),
            _ => Err(ValueError::UnsupportedVariant),
        }
    }
}

} // verus!
