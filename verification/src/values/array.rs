use vstd::prelude::*;
use crate::values::{clear_view, clear_wf, spec_type_of, spec_value_name, ClearValue, NadaType, NadaValue};
use crate::ValueError;

verus! {

/// A homogeneous, non-empty array of clear values.
#[derive(Debug, PartialEq)]
pub struct Array {
    pub inner: NadaValue,
}

impl Array {
    /// The held value is an array and well formed.
    pub open spec fn wf(self) -> bool {
        self.inner is Array && clear_wf(self.inner@)
    }

    /// Returns a new [`Array`]: at least one element, the element type
    /// inferred from the first, every element of that type.
    pub fn new(values: Vec<NadaValue>) -> (r: Result<Array, ValueError>)
        requires
            forall|k: int| 0 <= k < values@.len() ==> clear_wf((#[trigger] values@[k])@),
        ensures
            match r {
                Ok(w) => {
                    &&& w.wf()
                    &&& values@.len() >= 1
                    &&& w.inner@ == clear_view(NadaValue::Array {
                        inner_type: spec_type_of(values@[0]@),
                        values,
                    })
                    &&& forall|k: int|
                        0 <= k < values@.len() ==> spec_type_of((#[trigger] values@[k])@)
                            == spec_type_of(values@[0]@)
                },
                Err(e) => {
                    &&& e == ValueError::UnsupportedVariant
                    &&& values@.len() < 1 || exists|k: int|
                        0 <= k < values@.len() && spec_type_of((#[trigger] values@[k])@)
                            != spec_type_of(values@[0]@)
                },
            },
    {
        broadcast use crate::values::lemma_clear_views_index;

        if values.len() < 1 {
            return Err(ValueError::UnsupportedVariant);
        }
        let nada_type = values[0].to_type();
        match NadaValue::new_array(nada_type, values) {
            Ok(v) => Ok(Array { inner: v }),
            Err(e) => Err(e),
        }
    }

    /// The number of elements.
    pub fn __len__(&self) -> (r: usize)
        requires
            self.wf(),
        ensures
            r == self.inner@.arrow_Array_values().len(),
    {
        broadcast use crate::values::lemma_clear_views_index;

        match &self.inner {
            NadaValue::Array { values, .. } => {
                proof {
                    crate::values::lemma_clear_views_index(values@);
                }
                values.len()
            }
            _ => {
                proof {
                    assert(false);
                }
                0usize
            }
        }
    }

    /// The elements, copied out.
    pub fn get_value(&self) -> (r: Vec<NadaValue>)
        requires
            self.wf(),
        ensures
            r@.len() == self.inner@.arrow_Array_values().len(),
            forall|k: int|
                0 <= k < r@.len() ==> (#[trigger] r@[k])@ == self.inner@.arrow_Array_values()[k],
    {
        broadcast use crate::values::lemma_clear_views_index;

        match &self.inner {
            NadaValue::Array { values, .. } => {
                let mut out: Vec<NadaValue> = Vec::new();
                let mut k: usize = 0;
                while k < values.len()
                    invariant
                        k <= values@.len(),
                        out@.len() == k,
                        forall|q: int| 0 <= q < k ==> (#[trigger] out@[q])@ == values@[q]@,
                    decreases values@.len() - k,
                {
                    out.push(values[k].duplicate());
                    k = k + 1;
                }
                proof {
                    crate::values::lemma_clear_views_index(values@);
                }
                out
            }
            _ => {
                proof {
                    assert(false);
                }
                Vec::new()
            }
        }
    }

    /// The elements' variant names, bracketed and comma-separated.
    pub fn __str__(&self) -> (r: String)
        requires
            self.wf(),
        ensures
            r@ == "["@ + crate::values::spec_names_joined(self.inner@.arrow_Array_values())
                + "]"@,
    {
        match &self.inner {
            NadaValue::Array { values, .. } => {
                proof {
                    crate::values::lemma_clear_views_index(values@);
                }
                let ghost cvs = clear_view(self.inner).arrow_Array_values();
                let mut out = String::new();
                out.append("[");
                let mut k: usize = 0;
                while k < values.len()
                    invariant
                        k <= values@.len(),
                        self.inner is Array,
                        cvs == clear_view(self.inner).arrow_Array_values(),
                        cvs.len() == values@.len(),
                        forall|q: int| 0 <= q < cvs.len() ==> cvs[q] == (values@[q])@,
                        out@ == "["@ + crate::values::spec_names_joined(cvs.take(k as int)),
                    decreases values@.len() - k,
                {
                    if k > 0 {
                        out.append(", ");
                    }
                    let name = crate::values::value_name(&values[k]);
                    out.append(name.as_str());
                    proof {
                        assert(cvs.take(k + 1).drop_last() =~= cvs.take(k as int));
                        assert(cvs.take(k + 1).last() == cvs[k as int]);
                        if k == 0 {
                            assert(cvs.take(1) =~= seq![cvs[0]]);
                            assert("["@ + Seq::<char>::empty() + spec_value_name(cvs[0]) =~= "["@
                                + spec_value_name(cvs[0]));
                        }
                        assert(out@ == "["@ + crate::values::spec_names_joined(
                            cvs.take(k + 1),
                        ));
                    }
                    k = k + 1;
                }
                out.append("]");
                proof {
                    assert(cvs.take(cvs.len() as int) =~= cvs);
                }
                out
            }
            _ => {
                proof {
                    assert(false);
                }
                String::new()
            }
        }
    }

    /// The value's variant name together with its elements' names.
    pub fn __repr__(&self) -> (r: String)
        requires
            self.wf(),
        ensures
            r@ == "Array"@ + "["@ + crate::values::spec_names_joined(
                self.inner@.arrow_Array_values(),
            ) + "]"@,
    {
        let mut out = String::new();
        out.append("Array");
        let tail = self.__str__();
        out.append(tail.as_str());
        out
    }

    /// Wrap a clear value of the right variant.
    pub fn try_from_value(value: NadaValue) -> (r: Result<Array, ValueError>)
        requires
            clear_wf(value@),
        ensures
            match r {
                Ok(w) => w.inner@ == value@ && value is Array && w.wf(),
                Err(e) => e == ValueError::UnsupportedVariant && !(value is Array),
            },
    {
        if let NadaValue::Array { inner_type, values } = value {
            Ok(Array { inner: NadaValue::Array { inner_type, values } })
        } else {
            Err(ValueError::UnsupportedVariant)
        }
    }
}

} // verus!
