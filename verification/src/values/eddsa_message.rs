use vstd::prelude::*;
use crate::values::{clear_wf, copy_bytes, ClearValue, NadaValue};
use crate::ValueError;

verus! {

/// A message to be signed under EdDSA, of any length.
#[derive(Debug, PartialEq)]
pub struct EddsaMessage {
    pub inner: NadaValue,
}

impl EddsaMessage {
    /// The held value is of this wrapper's variant and well formed.
    pub open spec fn wf(self) -> bool {
        self.inner is EddsaMessage && clear_wf(self.inner@)
    }

    /// Returns a new [`EddsaMessage`].
    pub fn new(value: Vec<u8>) -> (r: EddsaMessage)
        ensures
            r.inner@ == ClearValue::EddsaMessage(value@),
            r.wf(),
    {
        EddsaMessage { inner: NadaValue::EddsaMessage(value) }
    }

    /// The bytes held inside.
    pub fn get_value(&self) -> (r: Vec<u8>)
        requires
            self.wf(),
        ensures
            self.inner@ == ClearValue::EddsaMessage(r@),
    {
        match &self.inner {
            NadaValue::EddsaMessage(x) => {
                let c = copy_bytes(x);
                proof {
                    assert(self.inner@ == ClearValue::EddsaMessage(c@));
                }
                c
            }
            _ => {
                proof {
                    assert(false);
                }
                Vec::new()
            }
        }
    }

    /// Replace the bytes held inside.
    pub fn set_value(&mut self, value: Vec<u8>)
        ensures
            final(self).inner@ == ClearValue::EddsaMessage(value@),
            final(self).wf(),
    {
        self.inner = NadaValue::EddsaMessage(value);
    }

    /// Wrap a clear value of the right variant.
    pub fn try_from_value(value: NadaValue) -> (r: Result<EddsaMessage, ValueError>)
        requires
            clear_wf(value@),
        ensures
            match r {
                Ok(w) => w.inner@ == value@ && value is EddsaMessage && w.wf(),
                Err(e) => e == ValueError::UnsupportedVariant && !(value is EddsaMessage),
            },
    {
        match value {
            NadaValue::EddsaMessage(x) => Ok(EddsaMessage { inner: NadaValue::EddsaMessage(x) }),
            _ => Err(ValueError::UnsupportedVariant),
        }
    }
}

} // verus!
