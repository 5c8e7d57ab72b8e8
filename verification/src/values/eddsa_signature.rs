use vstd::prelude::*;
use crate::curves::{
    ed25519_order, ed25519_point, ed25519_point_valid, ed25519_scalar_from_le,
    is_ed25519_scalar,
};
use crate::modular::le_val;
use crate::values::{clear_wf, copy_bytes, ClearValue, NadaValue};
use crate::ValueError;

verus! {

/// An EdDSA signature: a 32-byte curve point `r` and a scalar `z` below the
/// ed25519 group order, carried as 32 little-endian bytes.
#[derive(Debug, PartialEq)]
pub struct EddsaSignature {
    pub inner: NadaValue,
}

impl EddsaSignature {
    /// The held value is an EdDSA signature and well formed.
    pub open spec fn wf(self) -> bool {
        self.inner is EddsaSignature && clear_wf(self.inner@)
    }

    /// Returns a new [`EddsaSignature`] from the bytes of its components:
    /// `r` must be a 32-byte encoding of a curve point, `z` at most 32
    /// little-endian bytes below the group order. `z` is kept in canonical
    /// 32-byte form.
    pub fn new(r: Vec<u8>, z: Vec<u8>) -> (res: Result<EddsaSignature, ValueError>)
        ensures
            match res {
                Ok(w) => {
                    &&& w.wf()
                    &&& r@.len() == 32 && ed25519_point(r@)
                    &&& z@.len() <= 32 && le_val(z@) < ed25519_order()
                    &&& match w.inner@ {
                        ClearValue::EddsaSignature { r: cr, z: cz } => cr == r@ && le_val(cz)
                            == le_val(z@),
                        _ => false,
                    }
                },
                Err(e) => {
                    &&& e == ValueError::FormatError
                    &&& r@.len() != 32 || !ed25519_point(r@) || z@.len() > 32 || le_val(z@)
                        >= ed25519_order()
                },
            },
    {
        if r.len() != 32 {
            return Err(ValueError::FormatError);
        }
        if !ed25519_point_valid(&r) {
            return Err(ValueError::FormatError);
        }
        let cz = match ed25519_scalar_from_le(&z) {
            Some(c) => c,
            None => {
                return Err(ValueError::FormatError);
            }
        };
        Ok(EddsaSignature { inner: NadaValue::EddsaSignature { r, z: cz } })
    }

    /// The components `(r, z)`: the point encoding and 32 little-endian bytes.
    pub fn get_value(&self) -> (res: (Vec<u8>, Vec<u8>))
        requires
            self.wf(),
        ensures
            self.inner@ == (ClearValue::EddsaSignature { r: res.0@, z: res.1@ }),
    {
        match &self.inner {
            NadaValue::EddsaSignature { r, z } => {
                let cr = copy_bytes(r);
                let cz = copy_bytes(z);
                proof {
                    assert(self.inner@ == (ClearValue::EddsaSignature { r: cr@, z: cz@ }));
                }
                (cr, cz)
            }
            _ => {
                proof {
                    assert(false);
                }
                (Vec::new(), Vec::new())
            }
        }
    }

    /// Wrap a clear value of the right variant.
    pub fn try_from_value(value: NadaValue) -> (res: Result<EddsaSignature, ValueError>)
        requires
            clear_wf(value@),
        ensures
            match res {
                Ok(w) => w.inner@ == value@ && value is EddsaSignature && w.wf(),
                Err(e) => e == ValueError::UnsupportedVariant && !(value is EddsaSignature),
            },
    {
        match value {
            NadaValue::EddsaSignature { r, z } => Ok(
                EddsaSignature { inner: NadaValue::EddsaSignature { r, z } },
            ),
            _ => Err(ValueError::UnsupportedVariant),
        }
    }
}

} // verus!
