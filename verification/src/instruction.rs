//! The bit-packed instruction format: a 32-bit word whose top two bits
//! select the instruction type, followed by a six-bit opcode and, per
//! type, register numbers and a sixteen-bit byte address.

use vstd::prelude::*;

verus! {

/// Instruction type in the top two bits of a word.
pub const INSTR_TYPE_ARITHMETIC: u8 = 0;

pub const INSTR_TYPE_COND_BRANCH_IMMEDIATE: u8 = 1;

pub const INSTR_TYPE_UNCOND_JUMP: u8 = 2;

pub const INSTR_TYPE_IO: u8 = 3;

/// Instruction type: bits 0-1 (counting from the most significant bit).
pub open spec fn spec_instr_type(w: u32) -> u32 {
    w >> 30
}

/// Opcode: bits 2-7.
pub open spec fn spec_opcode(w: u32) -> u32 {
    (w >> 24) & 0x3F
}

/// First register number: bits 8-11.
pub open spec fn spec_reg1(w: u32) -> u32 {
    (w >> 20) & 0xF
}

/// Second register number: bits 12-15.
pub open spec fn spec_reg2(w: u32) -> u32 {
    (w >> 16) & 0xF
}

/// Third register number: bits 16-19.
pub open spec fn spec_reg3(w: u32) -> u32 {
    (w >> 12) & 0xF
}

/// Byte address operand: bits 16-31.
pub open spec fn spec_address(w: u32) -> u32 {
    w & 0xFFFF
}

/// Byte address operand of an unconditional jump: bits 8-23.
pub open spec fn spec_jump_address(w: u32) -> u32 {
    (w >> 8) & 0xFFFF
}

/// A decoded instruction word.
pub struct DecodedInstruction {
    pub instr_type: u8,
    pub opcode: u8,
    pub reg_1_num: usize,
    pub reg_2_num: usize,
    pub reg_3_num: usize,
    pub address: usize,
}

impl DecodedInstruction {
    /// An all-zero decoded instruction, ready to be filled in.
    pub fn new() -> (r: DecodedInstruction)
        ensures
            r.instr_type == 0,
            r.opcode == 0,
            r.reg_1_num == 0,
            r.reg_2_num == 0,
            r.reg_3_num == 0,
            r.address == 0,
    {
        DecodedInstruction {
            instr_type: 0,
            opcode: 0,
            reg_1_num: 0,
            reg_2_num: 0,
            reg_3_num: 0,
            address: 0,
        }
    }

    /// The fields this word decodes to.  Register operands are extracted
    /// only for the types that carry them; the rest stay zero.
    pub open spec fn decodes(self, w: u32) -> bool {
        &&& self.instr_type == spec_instr_type(w)
        &&& self.opcode == spec_opcode(w)
        &&& (self.instr_type == INSTR_TYPE_ARITHMETIC ==> {
            &&& self.reg_1_num == spec_reg1(w)
            &&& self.reg_2_num == spec_reg2(w)
            &&& self.reg_3_num == spec_reg3(w)
            &&& self.address == 0
        })
        &&& (self.instr_type == INSTR_TYPE_COND_BRANCH_IMMEDIATE || self.instr_type
            == INSTR_TYPE_IO ==> {
            &&& self.reg_1_num == spec_reg1(w)
            &&& self.reg_2_num == spec_reg2(w)
            &&& self.reg_3_num == 0
            &&& self.address == spec_address(w)
        })
        &&& (self.instr_type == INSTR_TYPE_UNCOND_JUMP ==> {
            &&& self.reg_1_num == 0
            &&& self.reg_2_num == 0
            &&& self.reg_3_num == 0
            &&& self.address == spec_jump_address(w)
        })
    }
}

/// Extracts `length` bits of `instruction` starting at `start_index`,
/// counting from the most significant bit.
pub fn extract_bits(instruction: u32, start_index: u32, length: u32) -> (r: u32)
    requires
        start_index < 32,
        1 <= length <= 32,
    ensures
        r == (instruction << start_index) >> (32 - length),
{
    (instruction << start_index) >> (32 - length)
}

/// Decodes one instruction word into its fields: the instruction type is
/// the top two bits, the opcode the next six, and the operands follow the
/// layout of the type.
pub fn decode(instruction: u32) -> (r: DecodedInstruction)
    ensures
        r.decodes(instruction),
        r.instr_type <= 3,
        r.opcode <= 0x3F,
        r.reg_1_num <= 0xF,
        r.reg_2_num <= 0xF,
        r.reg_3_num <= 0xF,
        r.address <= 0xFFFF,
{
    let mut result = DecodedInstruction::new();

    let instr_type = extract_bits(instruction, 0, 2);
    let opcode = extract_bits(instruction, 2, 6);
    proof {
        assert((instruction << 0) >> 30 == instruction >> 30 && instruction >> 30 < 4 && ((
        instruction << 2) >> 26) == (instruction >> 24) & 0x3F && (instruction >> 24) & 0x3F
            < 0x40) by (bit_vector);
    }
    result.instr_type = instr_type as u8;
    result.opcode = opcode as u8;

    if instr_type == 0 {
        let r1 = extract_bits(instruction, 8, 4);
        let r2 = extract_bits(instruction, 12, 4);
        let r3 = extract_bits(instruction, 16, 4);
        proof {
            assert((instruction << 8) >> 28 == (instruction >> 20) & 0xF && (instruction << 12)
                >> 28 == (instruction >> 16) & 0xF && (instruction << 16) >> 28 == (instruction
                >> 12) & 0xF && (instruction >> 20) & 0xF < 16 && (instruction >> 16) & 0xF < 16
                && (instruction >> 12) & 0xF < 16) by (bit_vector);
        }
        result.reg_1_num = r1 as usize;
        result.reg_2_num = r2 as usize;
        result.reg_3_num = r3 as usize;
    } else if instr_type == 1 || instr_type == 3 {
        let r1 = extract_bits(instruction, 8, 4);
        let r2 = extract_bits(instruction, 12, 4);
        let address = extract_bits(instruction, 16, 16);
        proof {
            assert((instruction << 8) >> 28 == (instruction >> 20) & 0xF && (instruction << 12)
                >> 28 == (instruction >> 16) & 0xF && (instruction << 16) >> 16 == instruction
                & 0xFFFF && (instruction >> 20) & 0xF < 16 && (instruction >> 16) & 0xF < 16 && (
            instruction & 0xFFFF) <= 0xFFFF) by (bit_vector);
        }
        result.reg_1_num = r1 as usize;
        result.reg_2_num = r2 as usize;
        result.address = address as usize;
    } else {
        proof {
            assert(instruction >> 30 < 4) by (bit_vector);
        }
        let address = extract_bits(instruction, 8, 16);
        proof {
            assert((instruction << 8) >> 16 == (instruction >> 8) & 0xFFFF && (instruction >> 8)
                & 0xFFFF <= 0xFFFF) by (bit_vector);
        }
        result.address = address as usize;
    }

    result
}

/// Packs the fields of an arithmetic instruction back into a word.  Only
/// the low bits of each operand are significant.
pub open spec fn spec_encode_arithmetic(
    instr_type: u32,
    opcode: u32,
    reg1: u32,
    reg2: u32,
    reg3: u32,
) -> u32 {
    (instr_type << 30) | (opcode << 24) | (reg1 << 20) | (reg2 << 16) | (reg3 << 12)
}

/// Decode then re-encode is the identity on arithmetic words, up to the
/// twelve unused low bits.
pub proof fn lemma_arithmetic_encode_roundtrip(w: u32)
    ensures
        spec_encode_arithmetic(
            spec_instr_type(w),
            spec_opcode(w),
            spec_reg1(w),
            spec_reg2(w),
            spec_reg3(w),
        ) == w & 0xFFFF_F000,
{
    assert(((w >> 30) << 30) | (((w >> 24) & 0x3F) << 24) | (((w >> 20) & 0xF) << 20) | (((w
        >> 16) & 0xF) << 16) | (((w >> 12) & 0xF) << 12) == w & 0xFFFF_F000) by (bit_vector);
}

} // verus!
