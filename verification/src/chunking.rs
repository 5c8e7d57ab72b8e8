//! Splitting a byte string into field-element chunks and putting it back.
//!
//! A secret blob is carried through masking as a run of field elements. Each
//! chunk takes one byte less than the modulus width, so that every chunk is a
//! valid field element no matter its content; the blob's true length is kept
//! beside the chunks and trims the padding on the way back.

use vstd::prelude::*;
use vstd::arithmetic::div_mod::lemma_fundamental_div_mod_converse;
use crate::modular::{
    EncodedModulo, is_field_bytes, le_val, lemma_le_val_bound, lemma_le_val_concat,
    lemma_le_val_zero, lemma_prime_large, pow256,
};

verus! {

/// Number of blob bytes that one chunk carries.
pub open spec fn spec_chunk_len(m: EncodedModulo) -> nat {
    (m.spec_width() - 1) as nat
}

/// Number of blob bytes that one chunk carries.
pub fn chunk_len(m: &EncodedModulo) -> (r: usize)
    ensures
        r == spec_chunk_len(*m),
        r >= 7,
{
    m.width() - 1
}

/// How many chunks a blob of the given length splits into.
pub open spec fn spec_num_chunks(len: nat, m: EncodedModulo) -> nat {
    ((len + spec_chunk_len(m) - 1) as int / spec_chunk_len(m) as int) as nat
}

/// The bytes of chunk `k` of a blob: a slice of the data, zero-padded to the
/// modulus width.
pub open spec fn spec_chunk_at(d: Seq<u8>, m: EncodedModulo, k: int) -> Seq<u8> {
    Seq::new(
        m.spec_width(),
        |i: int|
            if i < spec_chunk_len(m) && k * spec_chunk_len(m) + i < d.len() {
                d[k * spec_chunk_len(m) + i]
            } else {
                0u8
            },
    )
}

/// A chunk with a zero top byte is a field element.
proof fn lemma_padded_chunk_is_field(s: Seq<u8>, m: EncodedModulo)
    requires
        s.len() == m.spec_width(),
        s[m.spec_width() - 1] == 0,
    ensures
        is_field_bytes(s, m),
        le_val(s) < pow256(spec_chunk_len(m)),
{
    let cs = spec_chunk_len(m);
    assert(s =~= s.take(cs as int) + s.skip(cs as int));
    lemma_le_val_concat(s.take(cs as int), s.skip(cs as int));
    lemma_le_val_zero(s.skip(cs as int));
    lemma_le_val_bound(s.take(cs as int));
    lemma_prime_large(m);
    assert(0 * pow256(cs) == 0) by (nonlinear_arith);
    assert(255 * pow256(cs) >= 2 * pow256(cs)) by (nonlinear_arith)
        requires
            pow256(cs) >= 0,
    ;
}

/// Split a blob into zero-padded field-element chunks.
pub fn chunk_blob(data: &Vec<u8>, m: &EncodedModulo) -> (r: Vec<Vec<u8>>)
    ensures
        r@.len() == spec_num_chunks(data@.len(), *m),
        forall|k: int| 0 <= k < r@.len() ==> (#[trigger] r@[k])@ == spec_chunk_at(data@, *m, k),
        forall|k: int| 0 <= k < r@.len() ==> is_field_bytes((#[trigger] r@[k])@, *m),
{
    let cs = chunk_len(m);
    let w = m.width();
    let len = data.len();
    // ceil(len / cs), with no chunk at all for an empty blob
    let count: usize = if len == 0 {
        0
    } else {
        (len - 1) / cs + 1
    };
    proof {
        if len > 0 {
            assert((len + cs - 1) as int / cs as int == (len - 1) as int / cs as int + 1) by {
                vstd::arithmetic::div_mod::lemma_div_plus_one((len - 1) as int, cs as int);
            }
        } else {
            assert((cs - 1) as int / cs as int == 0) by {
                vstd::arithmetic::div_mod::lemma_basic_div((cs - 1) as int, cs as int);
            }
        }
    }
    let mut r: Vec<Vec<u8>> = Vec::new();
    let mut k: usize = 0;
    while k < count
        invariant
            k <= count,
            r@.len() == k,
            cs == spec_chunk_len(*m),
            w == m.spec_width(),
            len == data@.len(),
            count == spec_num_chunks(data@.len(), *m),
            forall|q: int| 0 <= q < k ==> (#[trigger] r@[q])@ == spec_chunk_at(data@, *m, q),
            forall|q: int| 0 <= q < k ==> is_field_bytes((#[trigger] r@[q])@, *m),
        decreases count - k,
    {
        let mut chunk: Vec<u8> = Vec::new();
        let mut i: usize = 0;
        while i < w
            invariant
                i <= w,
                k < count,
                chunk@.len() == i,
                cs == spec_chunk_len(*m),
                w == m.spec_width(),
                len == data@.len(),
                count == spec_num_chunks(data@.len(), *m),
                forall|q: int| 0 <= q < i ==> chunk@[q] == spec_chunk_at(data@, *m, k as int)[q],
            decreases w - i,
        {
            proof {
                assert(k as u128 <= 0xffff_ffff_ffff_ffffu128);
                assert((k as u128) * (cs as u128) + (i as u128) < u128::MAX) by (nonlinear_arith)
                    requires
                        k as u128 <= 0xffff_ffff_ffff_ffffu128,
                        cs as u128 <= 32,
                        i as u128 <= 32,
                ;
            }
            let pos: u128 = (k as u128) * (cs as u128) + (i as u128);
            if i < cs && pos < len as u128 {
                chunk.push(data[pos as usize]);
            } else {
                chunk.push(0u8);
            }
            i = i + 1;
        }
        proof {
            assert(chunk@ =~= spec_chunk_at(data@, *m, k as int));
            lemma_padded_chunk_is_field(chunk@, *m);
        }
        r.push(chunk);
        k = k + 1;
    }
    r
}

/// How many chunks a blob of the given length splits into, computed without
/// overflow for any length.
pub fn num_chunks_u64(size: u64, m: &EncodedModulo) -> (r: u128)
    ensures
        r == spec_num_chunks(size as nat, *m),
{
    let cs = chunk_len(m);
    proof {
        if size > 0 {
            assert((size + cs - 1) as int / cs as int == (size - 1) as int / cs as int + 1) by {
                vstd::arithmetic::div_mod::lemma_div_plus_one((size - 1) as int, cs as int);
            }
        } else {
            assert((cs - 1) as int / cs as int == 0) by {
                vstd::arithmetic::div_mod::lemma_basic_div((cs - 1) as int, cs as int);
            }
        }
    }
    if size == 0 {
        0
    } else {
        (size as u128 - 1) / (cs as u128) + 1
    }
}

/// The chunk run that could have come from some blob of the given length:
/// right count, and zero in every padding position.
pub open spec fn chunks_well_padded(chunks: Seq<Seq<u8>>, size: nat, m: EncodedModulo) -> bool {
    &&& chunks.len() == spec_num_chunks(size, m)
    &&& forall|k: int, i: int|
        0 <= k < chunks.len() && 0 <= i < m.spec_width() && (i >= spec_chunk_len(m) || k
            * spec_chunk_len(m) + i >= size) ==> chunks[k][i] == 0
}

/// Reassemble a blob from its chunk run, trimming the padding; fails when the
/// run could not have come from a blob of the stated size.
pub fn unchunk_blob(chunks: &Vec<Vec<u8>>, size: usize, m: &EncodedModulo) -> (r: Option<
    Vec<u8>,
>)
    requires
        forall|k: int| 0 <= k < chunks@.len() ==> (#[trigger] chunks@[k])@.len() == m.spec_width(),
    ensures
        match r {
            Some(d) => {
                &&& d@.len() == size
                &&& chunks_well_padded(chunks@.map_values(|c: Vec<u8>| c@), size as nat, *m)
                &&& forall|k: int|
                    0 <= k < chunks@.len() ==> (#[trigger] chunks@[k])@ == spec_chunk_at(
                        d@,
                        *m,
                        k,
                    )
            },
            None => !chunks_well_padded(chunks@.map_values(|c: Vec<u8>| c@), size as nat, *m),
        },
{
    let cs = chunk_len(m);
    let w = m.width();
    let ghost cviews = chunks@.map_values(|c: Vec<u8>| c@);
    // The count must be exactly what a blob of this size splits into.
    let count: usize = if size == 0 {
        0
    } else {
        (size - 1) / cs + 1
    };
    proof {
        if size > 0 {
            assert((size + cs - 1) as int / cs as int == (size - 1) as int / cs as int + 1) by {
                vstd::arithmetic::div_mod::lemma_div_plus_one((size - 1) as int, cs as int);
            }
        } else {
            assert((cs - 1) as int / cs as int == 0) by {
                vstd::arithmetic::div_mod::lemma_basic_div((cs - 1) as int, cs as int);
            }
        }
    }
    if chunks.len() != count {
        return None;
    }
    // Every padding position must hold zero.
    let mut k: usize = 0;
    while k < count
        invariant
            k <= count,
            cs == spec_chunk_len(*m),
            w == m.spec_width(),
            chunks@.len() == count,
            count == spec_num_chunks(size as nat, *m),
            cviews == chunks@.map_values(|c: Vec<u8>| c@),
            forall|q: int| 0 <= q < chunks@.len() ==> (#[trigger] chunks@[q])@.len() == w,
            forall|q: int, i: int|
                0 <= q < k && 0 <= i < w && (i >= cs || q * cs + i >= size)
                    ==> chunks@[q]@[i] == 0,
        decreases count - k,
    {
        let chunk = &chunks[k];
        let mut i: usize = 0;
        while i < w
            invariant
                i <= w,
                k < count,
                cs == spec_chunk_len(*m),
                w == m.spec_width(),
                chunk@.len() == w,
                chunk@ == chunks@[k as int]@,
                chunks@.len() == count,
                count == spec_num_chunks(size as nat, *m),
                cviews == chunks@.map_values(|c: Vec<u8>| c@),
                forall|j: int| 0 <= j < i && (j >= cs || k * cs + j >= size) ==> chunk@[j] == 0,
            decreases w - i,
        {
            proof {
                assert(k as u128 <= 0xffff_ffff_ffff_ffffu128);
                assert((k as u128) * (cs as u128) + (i as u128) < u128::MAX) by (nonlinear_arith)
                    requires
                        k as u128 <= 0xffff_ffff_ffff_ffffu128,
                        cs as u128 <= 32,
                        i as u128 <= 32,
                ;
            }
            let pos: u128 = (k as u128) * (cs as u128) + (i as u128);
            if (i >= cs || pos >= size as u128) && chunk[i] != 0 {
                proof {
                    let cv = chunks@.map_values(|c: Vec<u8>| c@);
                    assert(cv[k as int] == chunks@[k as int]@);
                    assert(cv[k as int][i as int] != 0);
                }
                return None;
            }
            i = i + 1;
        }
        k = k + 1;
    }
    // Read the data back positionally.
    let mut d: Vec<u8> = Vec::new();
    let mut j: usize = 0;
    while j < size
        invariant
            j <= size,
            d@.len() == j,
            cs == spec_chunk_len(*m),
            w == m.spec_width(),
            chunks@.len() == count,
            count == spec_num_chunks(size as nat, *m),
            forall|q: int| 0 <= q < chunks@.len() ==> (#[trigger] chunks@[q])@.len() == w,
            size > 0 ==> count == (size - 1) as int / cs as int + 1,
            forall|q: int| 0 <= q < j ==> d@[q] == chunks@[q / (cs as int)]@[q % (cs as int)],
        decreases size - j,
    {
        let q: usize = j / cs;
        let i: usize = j % cs;
        proof {
            // j < size implies j / cs < count.
            assert((j as int / cs as int) < (count as int)) by {
                vstd::arithmetic::div_mod::lemma_div_is_ordered(
                    j as int,
                    (size - 1) as int,
                    cs as int,
                );
            }
        }
        d.push(chunks[q][i]);
        j = j + 1;
    }
    proof {
        assert forall|k2: int| 0 <= k2 < chunks@.len() implies (#[trigger] chunks@[k2])@
            =~= spec_chunk_at(d@, *m, k2) by {
            let c = chunks@[k2]@;
            let target = spec_chunk_at(d@, *m, k2);
            assert forall|i: int| 0 <= i < w implies c[i] == target[i] by {
                if i < cs && k2 * cs + i < size as int {
                    let pos = k2 * cs + i;
                    lemma_fundamental_div_mod_converse(pos, cs as int, k2, i);
                    assert(d@[pos] == chunks@[pos / (cs as int)]@[pos % (cs as int)]);
                } else {
                }
            }
        }
    }
    Some(d)
}

} // verus!
