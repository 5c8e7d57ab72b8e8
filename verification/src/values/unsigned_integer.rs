use vstd::prelude::*;
use crate::values::{clear_wf, ClearValue, NadaValue};
use crate::ValueError;

verus! {

/// A secret unsigned integer, split into shares under masking.
#[derive(Debug, PartialEq)]
pub struct SecretUnsignedInteger {
    pub inner: NadaValue,
}

impl SecretUnsignedInteger {
    /// The held value is of this wrapper's variant and well formed.
    pub open spec fn wf(self) -> bool {
        self.inner is SecretUnsignedInteger && clear_wf(self.inner@)
    }

    /// Returns a new [`SecretUnsignedInteger`].
    pub fn new(value: u64) -> (r: SecretUnsignedInteger)
        ensures
            r.inner@ == ClearValue::SecretUnsignedInteger(value),
            r.wf(),
    {
        SecretUnsignedInteger { inner: NadaValue::SecretUnsignedInteger(value) }
    }

    /// The value held inside.
    pub fn get_value(&self) -> (r: u64)
        requires
            self.wf(),
        ensures
            self.inner@ == ClearValue::SecretUnsignedInteger(r),
    {
        match &self.inner {
            NadaValue::SecretUnsignedInteger(x) => *x,
            _ => {
                proof {
                    assert(false);
                }
                0u64
            }
        }
    }

    /// Replace the value held inside.
    pub fn set_value(&mut self, value: u64)
        ensures
            final(self).inner@ == ClearValue::SecretUnsignedInteger(value),
            final(self).wf(),
    {
        self.inner = NadaValue::SecretUnsignedInteger(value);
    }

    /// Wrap a clear value of the right variant.
    pub fn try_from_value(value: NadaValue) -> (r: Result<SecretUnsignedInteger, ValueError>)
        requires
            clear_wf(value@),
        ensures
            match r {
                Ok(w) => w.inner@ == value@ && value is SecretUnsignedInteger && w.wf(),
                Err(e) => e == ValueError::UnsupportedVariant && !(value is SecretUnsignedInteger),
            },
    {
        match value {
            NadaValue::SecretUnsignedInteger(x) => Ok(SecretUnsignedInteger { inner: NadaValue::SecretUnsignedInteger(x) }),
            _ => Err(ValueError::UnsupportedVariant),
        }
    }
}

/// A public unsigned integer, encoded identically for every party.
#[derive(Debug, PartialEq)]
pub struct UnsignedInteger {
    pub inner: NadaValue,
}

impl UnsignedInteger {
    /// The held value is of this wrapper's variant and well formed.
    pub open spec fn wf(self) -> bool {
        self.inner is UnsignedInteger && clear_wf(self.inner@)
    }

    /// Returns a new [`UnsignedInteger`].
    pub fn new(value: u64) -> (r: UnsignedInteger)
        ensures
            r.inner@ == ClearValue::UnsignedInteger(value),
            r.wf(),
    {
        UnsignedInteger { inner: NadaValue::UnsignedInteger(value) }
    }

    /// The value held inside.
    pub fn get_value(&self) -> (r: u64)
        requires
            self.wf(),
        ensures
            self.inner@ == ClearValue::UnsignedInteger(r),
    {
        match &self.inner {
            NadaValue::UnsignedInteger(x) => *x,
            _ => {
                proof {
                    assert(false);
                }
                0u64
            }
        }
    }

    /// Replace the value held inside.
    pub fn set_value(&mut self, value: u64)
        ensures
            final(self).inner@ == ClearValue::UnsignedInteger(value),
            final(self).wf(),
    {
        self.inner = NadaValue::UnsignedInteger(value);
    }

    /// Wrap a clear value of the right variant.
    pub fn try_from_value(value: NadaValue) -> (r: Result<UnsignedInteger, ValueError>)
        requires
            clear_wf(value@),
        ensures
            match r {
                Ok(w) => w.inner@ == value@ && value is UnsignedInteger && w.wf(),
                Err(e) => e == ValueError::UnsupportedVariant && !(value is UnsignedInteger),
            },
    {
        match value {
            NadaValue::UnsignedInteger(x) => Ok(UnsignedInteger { inner: NadaValue::UnsignedInteger(x) }),
            _ => Err(ValueError::UnsupportedVariant),
        }
    }
}

} // verus!
