use vstd::prelude::*;
use crate::values::{clear_wf, copy_bytes, ClearValue, NadaValue};
use crate::ValueError;

verus! {

/// A 16-byte store identifier.
#[derive(Debug, PartialEq)]
pub struct StoreId {
    pub inner: NadaValue,
}

impl StoreId {
    /// The held value is of this wrapper's variant and well formed.
    pub open spec fn wf(self) -> bool {
        self.inner is StoreId && clear_wf(self.inner@)
    }

    /// Returns a new [`StoreId`]; the bytes must be exactly 16 long.
    pub fn new(value: Vec<u8>) -> (r: Result<StoreId, ValueError>)
        ensures
            match r {
                Ok(w) => value@.len() == 16 && w.inner@ == ClearValue::StoreId(value@)
                    && w.wf(),
                Err(e) => e == ValueError::FormatError && value@.len() != 16,
            },
    {
        if value.len() != 16 {
            return Err(ValueError::FormatError);
        }
        Ok(StoreId { inner: NadaValue::StoreId(value) })
    }

    /// The bytes held inside.
    pub fn get_value(&self) -> (r: Vec<u8>)
        requires
            self.wf(),
        ensures
            self.inner@ == ClearValue::StoreId(r@),
    {
        match &self.inner {
            NadaValue::StoreId(x) => {
                let c = copy_bytes(x);
                proof {
                    assert(self.inner@ == ClearValue::StoreId(c@));
                }
                c
            }
            _ => {
                proof {
                    assert(false);
                }
                Vec::new()
            }
        }
    }

    /// Replace the bytes held inside; the bytes must be exactly 16 long.
    pub fn set_value(&mut self, value: Vec<u8>) -> (r: Result<(), ValueError>)
        ensures
            match r {
                Ok(()) => value@.len() == 16 && final(self).inner@ == ClearValue::StoreId(value@) && final(self).wf(),
                Err(e) => e == ValueError::FormatError && value@.len() != 16 && *final(self)
                    == *old(self),
            },
    {
        if value.len() != 16 {
            return Err(ValueError::FormatError);
        }
        self.inner = NadaValue::StoreId(value);
        Ok(())
    }

    /// Wrap a clear value of the right variant.
    pub fn try_from_value(value: NadaValue) -> (r: Result<StoreId, ValueError>)
        requires
            clear_wf(value@),
        ensures
            match r {
                Ok(w) => w.inner@ == value@ && value is StoreId && w.wf(),
                Err(e) => e == ValueError::UnsupportedVariant && !(value is StoreId),
            },
    {
        match value {
            NadaValue::StoreId(x) => Ok(StoreId { inner: NadaValue::StoreId(x) }),
            _ => Err(ValueError::UnsupportedVariant),
        }
    }
}

} // verus!
