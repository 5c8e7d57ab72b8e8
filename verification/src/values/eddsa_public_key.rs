use vstd::prelude::*;
use crate::values::{clear_wf, copy_bytes, ClearValue, NadaValue};
use crate::ValueError;

verus! {

/// A 32-byte EdDSA public key encoding.
#[derive(Debug, PartialEq)]
pub struct EddsaPublicKey {
    pub inner: NadaValue,
}

impl EddsaPublicKey {
    /// The held value is of this wrapper's variant and well formed.
    pub open spec fn wf(self) -> bool {
        self.inner is EddsaPublicKey && clear_wf(self.inner@)
    }

    /// Returns a new [`EddsaPublicKey`]; the bytes must be exactly 32 long.
    pub fn new(value: Vec<u8>) -> (r: Result<EddsaPublicKey, ValueError>)
        ensures
            match r {
                Ok(w) => value@.len() == 32 && w.inner@ == ClearValue::EddsaPublicKey(value@)
                    && w.wf(),
                Err(e) => e == ValueError::FormatError && value@.len() != 32,
            },
    {
        if value.len() != 32 {
            return Err(ValueError::FormatError);
        }
        Ok(EddsaPublicKey { inner: NadaValue::EddsaPublicKey(value) })
    }

    /// The bytes held inside.
    pub fn get_value(&self) -> (r: Vec<u8>)
        requires
            self.wf(),
        ensures
            self.inner@ == ClearValue::EddsaPublicKey(r@),
    {
        match &self.inner {
            NadaValue::EddsaPublicKey(x) => {
                let c = copy_bytes(x);
                proof {
                    assert(self.inner@ == ClearValue::EddsaPublicKey(c@));
                }
                c
            }
            _ => {
                proof {
                    assert(false);
                }
                Vec::new()
            }
        }
    }

    /// Replace the bytes held inside; the bytes must be exactly 32 long.
    pub fn set_value(&mut self, value: Vec<u8>) -> (r: Result<(), ValueError>)
        ensures
            match r {
                Ok(()) => value@.len() == 32 && final(self).inner@ == ClearValue::EddsaPublicKey(value@) && final(self).wf(),
                Err(e) => e == ValueError::FormatError && value@.len() != 32 && *final(self)
                    == *old(self),
            },
    {
        if value.len() != 32 {
            return Err(ValueError::FormatError);
        }
        self.inner = NadaValue::EddsaPublicKey(value);
        Ok(())
    }

    /// Wrap a clear value of the right variant.
    pub fn try_from_value(value: NadaValue) -> (r: Result<EddsaPublicKey, ValueError>)
        requires
            clear_wf(value@),
        ensures
            match r {
                Ok(w) => w.inner@ == value@ && value is EddsaPublicKey && w.wf(),
                Err(e) => e == ValueError::UnsupportedVariant && !(value is EddsaPublicKey),
            },
    {
        match value {
            NadaValue::EddsaPublicKey(x) => Ok(EddsaPublicKey { inner: NadaValue::EddsaPublicKey(x) }),
            _ => Err(ValueError::UnsupportedVariant),
        }
    }
}

} // verus!
