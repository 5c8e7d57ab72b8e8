use vstd::prelude::*;
use crate::values::{clear_wf, ClearValue, NadaValue};
use crate::ValueError;

verus! {

/// A secret boolean, split into shares under masking.
#[derive(Debug, PartialEq)]
pub struct SecretBoolean {
    pub inner: NadaValue,
}

impl SecretBoolean {
    /// The held value is of this wrapper's variant and well formed.
    pub open spec fn wf(self) -> bool {
        self.inner is SecretBoolean && clear_wf(self.inner@)
    }

    /// Returns a new [`SecretBoolean`].
    pub fn new(value: bool) -> (r: SecretBoolean)
        ensures
            r.inner@ == ClearValue::SecretBoolean(value),
            r.wf(),
    {
        SecretBoolean { inner: NadaValue::SecretBoolean(value) }
    }

    /// The value held inside.
    pub fn get_value(&self) -> (r: bool)
        requires
            self.wf(),
        ensures
            self.inner@ == ClearValue::SecretBoolean(r),
    {
        match &self.inner {
            NadaValue::SecretBoolean(x) => *x,
            _ => {
                proof {
                    assert(false);
                }
                false
            }
        }
    }

    /// Replace the value held inside.
    pub fn set_value(&mut self, value: bool)
        ensures
            final(self).inner@ == ClearValue::SecretBoolean(value),
            final(self).wf(),
    {
        self.inner = NadaValue::SecretBoolean(value);
    }

    /// Wrap a clear value of the right variant.
    pub fn try_from_value(value: NadaValue) -> (r: Result<SecretBoolean, ValueError>)
        requires
            clear_wf(value@),
        ensures
            match r {
                Ok(w) => w.inner@ == value@ && value is SecretBoolean && w.wf(),
                Err(e) => e == ValueError::UnsupportedVariant && !(value is SecretBoolean),
            },
    {
        match value {
            NadaValue::SecretBoolean(x) => Ok(SecretBoolean { inner: NadaValue::SecretBoolean(x) }),
            _ => Err(ValueError::UnsupportedVariant),
        }
    }
}

/// A public boolean, encoded identically for every party.
#[derive(Debug, PartialEq)]
pub struct Boolean {
    pub inner: NadaValue,
}

impl Boolean {
    /// The held value is of this wrapper's variant and well formed.
    pub open spec fn wf(self) -> bool {
        self.inner is Boolean && clear_wf(self.inner@)
    }

    /// Returns a new [`Boolean`].
    pub fn new(value: bool) -> (r: Boolean)
        ensures
            r.inner@ == ClearValue::Boolean(value),
            r.wf(),
    {
        Boolean { inner: NadaValue::Boolean(value) }
    }

    /// The value held inside.
    pub fn get_value(&self) -> (r: bool)
        requires
            self.wf(),
        ensures
            self.inner@ == ClearValue::Boolean(r),
    {
        match &self.inner {
            NadaValue::Boolean(x) => *x,
            _ => {
                proof {
                    assert(false);
                }
                false
            }
        }
    }

    /// Replace the value held inside.
    pub fn set_value(&mut self, value: bool)
        ensures
            final(self).inner@ == ClearValue::Boolean(value),
            final(self).wf(),
    {
        self.inner = NadaValue::Boolean(value);
    }

    /// Wrap a clear value of the right variant.
    pub fn try_from_value(value: NadaValue) -> (r: Result<Boolean, ValueError>)
        requires
            clear_wf(value@),
        ensures
            match r {
                Ok(w) => w.inner@ == value@ && value is Boolean && w.wf(),
                Err(e) => e == ValueError::UnsupportedVariant && !(value is Boolean),
            },
    {
        match value {
            NadaValue::Boolean(x) => Ok(Boolean { inner: NadaValue::Boolean(x) }),
            _ => Err(ValueError::UnsupportedVariant),
        }
    }
}

} // verus!
