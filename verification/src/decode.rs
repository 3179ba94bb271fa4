use vstd::prelude::*;

verus! {

/// Internal opcode of `add ra,imm8`.
pub const OP_ADD_IMM: u8 = 0x09;
/// Internal opcode of `la ra,imm24` (and of the absolute jump `la ir,imm24`).
pub const OP_LA: u8 = 0x0B;
/// Internal opcode of `lc ra,imm8` (sign-extended constant).
pub const OP_LC: u8 = 0x0E;
/// Internal opcode of `lcu ra,imm8` (zero-extended constant).
pub const OP_LCU: u8 = 0x0F;
/// Internal opcode of `sb ra,imm8(rb)`.
pub const OP_SB: u8 = 0x16;
/// Internal opcode of `shl ra,rb`.
pub const OP_SHL: u8 = 0x17;
/// Internal opcode of `clu ra,rb` (unsigned compare into the condition flag).
pub const OP_CLU: u8 = 0x08;
/// Internal opcode of the unconditional relative branch `bra`.
pub const OP_BRA: u8 = 0x03;
/// Internal opcode of `brf` (branch when the condition flag is clear).
pub const OP_BRF: u8 = 0x04;
/// Internal opcode of `brt` (branch when the condition flag is set).
pub const OP_BRT: u8 = 0x05;
/// What an instruction byte outside the supported subset decodes to.
pub const OP_UNKNOWN: u8 = 0xFF;

/// The decoding table of the supported instruction subset, as
/// `(opcode, ra, rb)`, grouped by the regular runs of encodings.
pub open spec fn decoded(byte: u8) -> (u8, u8, u8) {
    if 0x09 <= byte <= 0x0B {
        // add r0..r2, imm8
        (OP_ADD_IMM, (byte - 0x09) as u8, 0)
    } else if 0x29 <= byte <= 0x2F {
        // la r0..r6, imm24
        (OP_LA, (byte - 0x29) as u8, 0)
    } else if byte == 0xC7 {
        // la ir, imm24: the absolute jump
        (OP_LA, 7, 0)
    } else if 0x44 <= byte <= 0x47 {
        (OP_LC, (byte - 0x44) as u8, 0)
    } else if 0x48 <= byte <= 0x4B {
        (OP_LCU, (byte - 0x48) as u8, 0)
    } else if byte == 0x82 {
        (OP_SB, 0, 1)
    } else if byte == 0x83 {
        (OP_SB, 0, 2)
    } else if 0x84 <= byte <= 0x86 {
        (OP_SB, 1, (byte - 0x84) as u8)
    } else if byte == 0x87 {
        (OP_SB, 2, 0)
    } else if 0x88 <= byte <= 0x8A {
        (OP_SHL, 0, (byte - 0x88) as u8)
    } else if byte == 0x8E {
        (OP_SHL, 2, 0)
    } else if 0xCE <= byte <= 0xD0 {
        // clu z, r0..r2
        (OP_CLU, 5, (byte - 0xCE) as u8)
    } else if byte == 0x20 {
        (OP_CLU, 0, 2)
    } else if byte == 0x21 {
        (OP_CLU, 2, 0)
    } else if 0x13 <= byte <= 0x15 {
        // bra, brf, brt
        ((OP_BRA + (byte - 0x13)) as u8, 0, 0)
    } else {
        (OP_UNKNOWN, 0, 0)
    }
}

/// Decodes an instruction byte to `(opcode, ra, rb)`.
pub fn decode_instruction(byte: u8) -> (r: (u8, u8, u8))
    ensures
        r == decoded(byte),
{
    match byte {
        0x09 => (0x09, 0, 0),
        0x0A => (0x09, 1, 0),
        0x0B => (0x09, 2, 0),
        0x29 => (0x0B, 0, 0),
        0x2A => (0x0B, 1, 0),
        0x2B => (0x0B, 2, 0),
        0x2C => (0x0B, 3, 0),
        0x2D => (0x0B, 4, 0),
        0x2E => (0x0B, 5, 0),
        0x2F => (0x0B, 6, 0),
        0xC7 => (0x0B, 7, 0),
        0x44 => (0x0E, 0, 0),
        0x45 => (0x0E, 1, 0),
        0x46 => (0x0E, 2, 0),
        0x47 => (0x0E, 3, 0),
        0x48 => (0x0F, 0, 0),
        0x49 => (0x0F, 1, 0),
        0x4A => (0x0F, 2, 0),
        0x4B => (0x0F, 3, 0),
        0x82 => (0x16, 0, 1),
        0x83 => (0x16, 0, 2),
        0x84 => (0x16, 1, 0),
        0x85 => (0x16, 1, 1),
        0x86 => (0x16, 1, 2),
        0x87 => (0x16, 2, 0),
        0x88 => (0x17, 0, 0),
        0x89 => (0x17, 0, 1),
        0x8A => (0x17, 0, 2),
        0x8E => (0x17, 2, 0),
        0xCE => (0x08, 5, 0),
        0xCF => (0x08, 5, 1),
        0xD0 => (0x08, 5, 2),
        0x20 => (0x08, 0, 2),
        0x21 => (0x08, 2, 0),
        0x13 => (0x03, 0, 0),
        0x14 => (0x04, 0, 0),
        0x15 => (0x05, 0, 0),
        _ => (0xFF, 0, 0),
    }
}

} // verus!
