use vstd::prelude::*;
use crate::values::{clear_wf, ClearValue, NadaValue};
use crate::ValueError;

verus! {

/// A secret signed integer, split into shares under masking.
#[derive(Debug, PartialEq)]
pub struct SecretInteger {
    pub inner: NadaValue,
}

impl SecretInteger {
    /// The held value is of this wrapper's variant and well formed.
    pub open spec fn wf(self) -> bool {
        self.inner is SecretInteger && clear_wf(self.inner@)
    }

    /// Returns a new [`SecretInteger`].
    pub fn new(value: i64) -> (r: SecretInteger)
        ensures
            r.inner@ == ClearValue::SecretInteger(value),
            r.wf(),
    {
        SecretInteger { inner: NadaValue::SecretInteger(value) }
    }

    /// The value held inside.
    pub fn get_value(&self) -> (r: i64)
        requires
            self.wf(),
        ensures
            self.inner@ == ClearValue::SecretInteger(r),
    {
        match &self.inner {
            NadaValue::SecretInteger(x) => *x,
            _ => {
                proof {
                    assert(false);
                }
                0i64
            }
        }
    }

    /// Replace the value held inside.
    pub fn set_value(&mut self, value: i64)
        ensures
            final(self).inner@ == ClearValue::SecretInteger(value),
            final(self).wf(),
    {
        self.inner = NadaValue::SecretInteger(value);
    }

    /// Wrap a clear value of the right variant.
    pub fn try_from_value(value: NadaValue) -> (r: Result<SecretInteger, ValueError>)
        requires
            clear_wf(value@),
        ensures
            match r {
                Ok(w) => w.inner@ == value@ && value is SecretInteger && w.wf(),
                Err(e) => e == ValueError::UnsupportedVariant && !(value is SecretInteger),
            },
    {
        match value {
            NadaValue::SecretInteger(x) => Ok(SecretInteger { inner: NadaValue::SecretInteger(x) }),
            _ => Err(ValueError::UnsupportedVariant),
        }
    }
}

/// A public signed integer, encoded identically for every party.
#[derive(Debug, PartialEq)]
pub struct Integer {
    pub inner: NadaValue,
}

impl Integer {
    /// The held value is of this wrapper's variant and well formed.
    pub open spec fn wf(self) -> bool {
        self.inner is Integer && clear_wf(self.inner@)
    }

    /// Returns a new [`Integer`].
    pub fn new(value: i64) -> (r: Integer)
        ensures
            r.inner@ == ClearValue::Integer(value),
            r.wf(),
    {
        Integer { inner: NadaValue::Integer(value) }
    }

    /// The value held inside.
    pub fn get_value(&self) -> (r: i64)
        requires
            self.wf(),
        ensures
            self.inner@ == ClearValue::Integer(r),
    {
        match &self.inner {
            NadaValue::Integer(x) => *x,
            _ => {
                proof {
                    assert(false);
                }
                0i64
            }
        }
    }

    /// Replace the value held inside.
    pub fn set_value(&mut self, value: i64)
        ensures
            final(self).inner@ == ClearValue::Integer(value),
            final(self).wf(),
    {
        self.inner = NadaValue::Integer(value);
    }

    /// Wrap a clear value of the right variant.
    pub fn try_from_value(value: NadaValue) -> (r: Result<Integer, ValueError>)
        requires
            clear_wf(value@),
        ensures
            match r {
                Ok(w) => w.inner@ == value@ && value is Integer && w.wf(),
                Err(e) => e == ValueError::UnsupportedVariant && !(value is Integer),
            },
    {
        match value {
            NadaValue::Integer(x) => Ok(Integer { inner: NadaValue::Integer(x) }),
            _ => Err(ValueError::UnsupportedVariant),
        }
    }
}

} // verus!
