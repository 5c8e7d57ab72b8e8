use vstd::prelude::*;
use crate::curves::{
    be_val, bytes_all_zero, is_secp256k1_scalar, secp256k1_order, secp256k1_scalar_from_be,
};
use crate::values::{clear_wf, copy_bytes, ClearValue, NadaValue};
use crate::ValueError;

verus! {

/// An ECDSA signature: components `r` and `s`, each a non-zero scalar below
/// the secp256k1 group order, carried as 32 big-endian bytes.
#[derive(Debug, PartialEq)]
pub struct EcdsaSignature {
    pub inner: NadaValue,
}

impl EcdsaSignature {
    /// The held value is an ECDSA signature and well formed.
    pub open spec fn wf(self) -> bool {
        self.inner is EcdsaSignature && clear_wf(self.inner@)
    }

    /// Returns a new [`EcdsaSignature`] from the big-endian bytes of `r` and
    /// `s`: each at most 32 bytes, non-zero, below the group order. The
    /// components are kept in canonical 32-byte form.
    pub fn new(r: Vec<u8>, s: Vec<u8>) -> (res: Result<EcdsaSignature, ValueError>)
        ensures
            match res {
                Ok(w) => {
                    &&& w.wf()
                    &&& 0 < be_val(r@) < secp256k1_order()
                    &&& 0 < be_val(s@) < secp256k1_order()
                    &&& r@.len() <= 32 && s@.len() <= 32
                    &&& match w.inner@ {
                        ClearValue::EcdsaSignature { r: cr, s: cs } => be_val(cr) == be_val(r@)
                            && be_val(cs) == be_val(s@),
                        _ => false,
                    }
                },
                Err(e) => {
                    &&& e == ValueError::FormatError
                    &&& r@.len() > 32 || s@.len() > 32 || be_val(r@) == 0 || be_val(s@) == 0
                        || be_val(r@) >= secp256k1_order() || be_val(s@) >= secp256k1_order()
                },
            },
    {
        let cr = match secp256k1_scalar_from_be(&r) {
            Some(c) => c,
            None => {
                return Err(ValueError::FormatError);
            }
        };
        let cs = match secp256k1_scalar_from_be(&s) {
            Some(c) => c,
            None => {
                return Err(ValueError::FormatError);
            }
        };
        let rev_r = crate::curves::reverse_bytes(&cr);
        if bytes_all_zero(&rev_r) {
            return Err(ValueError::FormatError);
        }
        let rev_s = crate::curves::reverse_bytes(&cs);
        if bytes_all_zero(&rev_s) {
            return Err(ValueError::FormatError);
        }
        Ok(EcdsaSignature { inner: NadaValue::EcdsaSignature { r: cr, s: cs } })
    }

    /// The components `(r, s)`, each as 32 big-endian bytes.
    pub fn get_value(&self) -> (res: (Vec<u8>, Vec<u8>))
        requires
            self.wf(),
        ensures
            self.inner@ == (ClearValue::EcdsaSignature { r: res.0@, s: res.1@ }),
    {
        match &self.inner {
            NadaValue::EcdsaSignature { r, s } => {
                let cr = copy_bytes(r);
                let cs = copy_bytes(s);
                proof {
                    assert(self.inner@ == (ClearValue::EcdsaSignature { r: cr@, s: cs@ }));
                }
                (cr, cs)
            }
            _ => {
                proof {
                    assert(false);
                }
                (Vec::new(), Vec::new())
            }
        }
    }

    /// Wrap a clear value of the right variant.
    pub fn try_from_value(value: NadaValue) -> (res: Result<EcdsaSignature, ValueError>)
        requires
            clear_wf(value@),
        ensures
            match res {
                Ok(w) => w.inner@ == value@ && value is EcdsaSignature && w.wf(),
                Err(e) => e == ValueError::UnsupportedVariant && !(value is EcdsaSignature),
            },
    {
        match value {
            NadaValue::EcdsaSignature { r, s } => Ok(
                EcdsaSignature { inner: NadaValue::EcdsaSignature { r, s } },
            ),
            _ => Err(ValueError::UnsupportedVariant),
        }
    }
}

} // verus!
