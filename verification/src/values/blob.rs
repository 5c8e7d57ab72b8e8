use vstd::prelude::*;
use crate::values::{clear_wf, copy_bytes, ClearValue, NadaValue};
use crate::ValueError;

verus! {

/// A secret byte string, chunked into field elements and shared under masking.
#[derive(Debug, PartialEq)]
pub struct SecretBlob {
    pub inner: NadaValue,
}

impl SecretBlob {
    /// The held value is of this wrapper's variant and well formed.
    pub open spec fn wf(self) -> bool {
        self.inner is SecretBlob && clear_wf(self.inner@)
    }

    /// Returns a new [`SecretBlob`].
    pub fn new(value: Vec<u8>) -> (r: SecretBlob)
        ensures
            r.inner@ == ClearValue::SecretBlob(value@),
            r.wf(),
    {
        SecretBlob { inner: NadaValue::SecretBlob(value) }
    }

    /// The bytes held inside.
    pub fn get_value(&self) -> (r: Vec<u8>)
        requires
            self.wf(),
        ensures
            self.inner@ == ClearValue::SecretBlob(r@),
    {
        match &self.inner {
            NadaValue::SecretBlob(x) => {
                let c = copy_bytes(x);
                proof {
                    assert(self.inner@ == ClearValue::SecretBlob(c@));
                }
                c
            }
            _ => {
                proof {
                    assert(false);
                }
                Vec::new()
            }
        }
    }

    /// Replace the bytes held inside.
    pub fn set_value(&mut self, value: Vec<u8>)
        ensures
            final(self).inner@ == ClearValue::SecretBlob(value@),
            final(self).wf(),
    {
        self.inner = NadaValue::SecretBlob(value);
    }

    /// Wrap a clear value of the right variant.
    pub fn try_from_value(value: NadaValue) -> (r: Result<SecretBlob, ValueError>)
        requires
            clear_wf(value@),
        ensures
            match r {
                Ok(w) => w.inner@ == value@ && value is SecretBlob && w.wf(),
                Err(e) => e == ValueError::UnsupportedVariant && !(value is SecretBlob),
            },
    {
        match value {
            NadaValue::SecretBlob(x) => Ok(SecretBlob { inner: NadaValue::SecretBlob(x) }),
            _ => Err(ValueError::UnsupportedVariant),
        }
    }
}

} // verus!
