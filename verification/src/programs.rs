//! Static metadata of a compiled program representation.
//!
//! A compiled program arrives as bytes: an eight-byte little-endian memory
//! size, followed by one opcode byte per instruction. This module reads the
//! memory size, counts the instructions into a histogram, and totals the
//! preprocessing elements the runtime must provision: one multiplication
//! triple per multiplication and one comparison pair per comparison.

use vstd::prelude::*;
use crate::modular::{decode_u64, le_val, lemma_le_val_bound, pow256};
use crate::ValueError;

verus! {

/// The per-runtime-element preprocessing totals a program needs.
#[derive(Debug, PartialEq)]
pub struct ProgramRequirements {
    /// How many of each runtime element the program consumes, keyed by the
    /// element's name.
    pub runtime_elements: Vec<(String, usize)>,
}

/// The static metadata of one compiled program.
#[derive(Debug, PartialEq)]
pub struct ProgramMetadata {
    /// The program memory size
    pub memory_size: u64,
    /// The total number of instructions
    pub total_instructions: u64,
    /// The program instructions
    pub instructions: Vec<(String, u64)>,
    /// The program preprocessing requirements
    pub preprocessing_requirements: ProgramRequirements,
}

/// How many bytes of a run equal the given opcode.
pub open spec fn spec_count_op(s: Seq<u8>, op: u8) -> nat
    decreases s,
{
    if s.len() == 0 {
        0
    } else {
        spec_count_op(s.drop_last(), op) + if s.last() == op {
            1nat
        } else {
            0nat
        }
    }
}

/// The instruction a low opcode stands for.
pub open spec fn spec_opcode_name(op: u8) -> Seq<char> {
    if op == 0 {
        "load"@
    } else if op == 1 {
        "store"@
    } else if op == 2 {
        "addition"@
    } else if op == 3 {
        "multiplication"@
    } else {
        "comparison"@
    }
}

/// A well-formed program image: a memory-size header and known opcodes.
pub open spec fn program_image_ok(p: Seq<u8>) -> bool {
    p.len() >= 8 && forall|k: int| 8 <= k < p.len() ==> #[trigger] p[k] < 5
}

/// A count of opcodes never exceeds the run's length.
proof fn lemma_count_le(s: Seq<u8>, op: u8)
    ensures
        spec_count_op(s, op) <= s.len(),
    decreases s,
{
    if s.len() > 0 {
        lemma_count_le(s.drop_last(), op);
    }
}

/// Read the static metadata out of a compiled program's bytes: the memory
/// size, an instruction histogram, and the preprocessing totals. Fails with
/// a parse error on a truncated header or an unknown opcode.
pub fn extract_program_metadata(program: &Vec<u8>) -> (r: Result<ProgramMetadata, ValueError>)
    ensures
        match r {
            Ok(md) => {
                &&& program_image_ok(program@)
                &&& md.memory_size == le_val(program@.take(8))
                &&& md.total_instructions == program@.len() - 8
                &&& md.instructions@.len() == 5
                &&& forall|i: int|
                    0 <= i < 5 ==> ((#[trigger] md.instructions@[i]).0)@ == spec_opcode_name(
                        i as u8,
                    ) && md.instructions@[i].1 == spec_count_op(program@.skip(8), i as u8)
                &&& md.preprocessing_requirements.runtime_elements@.len() == 2
                &&& (md.preprocessing_requirements.runtime_elements@[0].0)@
                    == "multiplication-triples"@
                &&& md.preprocessing_requirements.runtime_elements@[0].1 == spec_count_op(
                    program@.skip(8),
                    3,
                )
                &&& (md.preprocessing_requirements.runtime_elements@[1].0)@
                    == "comparison-pairs"@
                &&& md.preprocessing_requirements.runtime_elements@[1].1 == spec_count_op(
                    program@.skip(8),
                    4,
                )
            },
            Err(e) => e == ValueError::ParseError && !program_image_ok(program@),
        },
{
    if program.len() < 8 {
        return Err(ValueError::ParseError);
    }
    let mut header: Vec<u8> = Vec::new();
    let mut i: usize = 0;
    while i < 8
        invariant
            i <= 8,
            program@.len() >= 8,
            header@.len() == i,
            forall|j: int| 0 <= j < i ==> header@[j] == program@[j],
        decreases 8 - i,
    {
        header.push(program[i]);
        i = i + 1;
    }
    proof {
        assert(header@ =~= program@.take(8));
        lemma_le_val_bound(header@);
        assert(pow256(8) == 0x1_0000_0000_0000_0000) by {
            reveal_with_fuel(pow256, 9);
        }
    }
    let memory_size = match decode_u64(&header) {
        Some(v) => v,
        None => {
            proof {
                assert(false);
            }
            return Err(ValueError::ParseError);
        }
    };
    // One pass over the opcodes, counting each kind.
    let ghost ops = program@.skip(8);
    let mut counts: [usize; 5] = [0, 0, 0, 0, 0];
    let mut k: usize = 8;
    while k < program.len()
        invariant
            8 <= k <= program@.len(),
            ops == program@.skip(8),
            forall|j: int| 8 <= j < k ==> #[trigger] program@[j] < 5,
            counts[0] == spec_count_op(ops.take(k - 8), 0),
            counts[1] == spec_count_op(ops.take(k - 8), 1),
            counts[2] == spec_count_op(ops.take(k - 8), 2),
            counts[3] == spec_count_op(ops.take(k - 8), 3),
            counts[4] == spec_count_op(ops.take(k - 8), 4),
            counts[0] <= k - 8 && counts[1] <= k - 8 && counts[2] <= k - 8 && counts[3] <= k - 8
                && counts[4] <= k - 8,
        decreases program@.len() - k,
    {
        let op = program[k];
        if op >= 5 {
            return Err(ValueError::ParseError);
        }
        proof {
            assert(ops.take(k - 8 + 1).drop_last() =~= ops.take(k - 8));
            assert(ops.take(k - 8 + 1).last() == program@[k as int]);
        }
        let cur = counts[op as usize];
        counts[op as usize] = cur + 1;
        k = k + 1;
    }
    proof {
        assert(ops.take(program@.len() - 8) =~= ops);
    }
    let mut instructions: Vec<(String, u64)> = Vec::new();
    instructions.push(("load".to_owned(), counts[0] as u64));
    instructions.push(("store".to_owned(), counts[1] as u64));
    instructions.push(("addition".to_owned(), counts[2] as u64));
    instructions.push(("multiplication".to_owned(), counts[3] as u64));
    instructions.push(("comparison".to_owned(), counts[4] as u64));
    let mut runtime_elements: Vec<(String, usize)> = Vec::new();
    runtime_elements.push(("multiplication-triples".to_owned(), counts[3]));
    runtime_elements.push(("comparison-pairs".to_owned(), counts[4]));
    Ok(
        ProgramMetadata {
            memory_size,
            total_instructions: (program.len() - 8) as u64,
            instructions,
            preprocessing_requirements: ProgramRequirements { runtime_elements },
        },
    )
}

} // verus!
