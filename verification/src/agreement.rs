//! What the assembler emits and what the processor executes agree: an
//! instruction encoded by the assembler runs as the instruction written,
//! for the registers whose encodings the decoder knows.

use vstd::arithmetic::power2::pow2;
use vstd::prelude::*;

use crate::assembler::{
    branch_offset, enc_clu, enc_halt, enc_la, enc_lc, enc_lcu, enc_sb, enc_shl,
};
use crate::assembler::{line_effect, mem_operand, operands, reg_number, LineEffect};
use crate::cpu::{low24, sext8, CpuState};
use crate::decode::{
    decoded, OP_BRA, OP_BRF, OP_BRT, OP_CLU, OP_LA, OP_LC, OP_LCU, OP_SB, OP_SHL,
};
use crate::text::{ascii_lower, words};

verus! {

/// Loads from `pc` on see the bytes `b`.
pub open spec fn holds_at(s: CpuState, pc: int, b: Seq<u8>) -> bool {
    forall|k: int| 0 <= k < b.len() ==> s.byte_at(pc + k) == #[trigger] b[k]
}

/// `lc ra,v` for `ra` in r0..r3, as assembled, loads the sign-extended low
/// byte of `v` into `ra` and moves on by two bytes.
pub proof fn law_lc_runs(s: CpuState, ra: u8, v: int)
    requires
        s.wf(),
        ra <= 3,
        holds_at(s, s.pc as int, enc_lc(ra, v)),
    ensures
        s.execute() == Some(s.with_reg(ra, sext8(v as u8) as int).jump(s.pc + 2)),
{
    assert(s.byte_at(s.pc as int) == enc_lc(ra, v)[0]);
    assert(s.byte_at(s.pc + 1) == enc_lc(ra, v)[1]);
}

/// `lcu ra,v` for `ra` in r0..r3, as assembled, loads the low byte of `v`
/// into `ra` and moves on by two bytes.
pub proof fn law_lcu_runs(s: CpuState, ra: u8, v: int)
    requires
        s.wf(),
        ra <= 3,
        holds_at(s, s.pc as int, enc_lcu(ra, v)),
    ensures
        s.execute() == Some(s.with_reg(ra, (v as u8) as int).jump(s.pc + 2)),
{
    assert(s.byte_at(s.pc as int) == enc_lcu(ra, v)[0]);
    assert(s.byte_at(s.pc + 1) == enc_lcu(ra, v)[1]);
}

/// `la ra,v` for `ra` in r0..r6, as assembled, loads the low 24 bits of `v`
/// into `ra` and moves on by four bytes.
pub proof fn law_la_runs(s: CpuState, ra: u8, v: u32)
    requires
        s.wf(),
        ra <= 6,
        holds_at(s, s.pc as int, enc_la(ra, v as int)),
    ensures
        s.execute() == Some(s.with_reg(ra, low24(v as int)).jump(s.pc + 4)),
{
    let b = enc_la(ra, v as int);
    assert(s.byte_at(s.pc as int) == b[0]);
    assert(s.byte_at(s.pc + 1) == b[1]);
    assert(s.byte_at(s.pc + 2) == b[2]);
    assert(s.byte_at(s.pc + 3) == b[3]);
    assert(s.pc + 1 + 1 == s.pc + 2 && s.pc + 1 + 2 == s.pc + 3);
    assert((v % 256) + 256 * ((v / 256) % 256) + 65536 * ((v / 65536) % 256) == v % 0x1000000)
        by (bit_vector);
    assert(s.word_at(s.pc + 1) == low24(v as int));
}

/// `sb ra,offset(rb)`, as assembled, for the register pairs whose
/// encodings the decoder knows (`r0` through `r1` or `r2`, `r1` through
/// `r0`..`r2`, and `r2` through `r0`), stores the low byte of `ra` at `rb`
/// plus the sign-extended low byte of the offset, and moves on by two bytes.
pub proof fn law_sb_runs(s: CpuState, ra: u8, rb: u8, offset: int)
    requires
        s.wf(),
        (ra == 0 && 1 <= rb <= 2) || (ra == 1 && rb <= 2) || (ra == 2 && rb == 0),
        holds_at(s, s.pc as int, enc_sb(ra, rb, offset)),
    ensures
        s.execute() == Some(
            s.store_byte(s.reg(rb) + sext8(offset as u8), (s.reg(ra) % 256) as u8).jump(s.pc + 2),
        ),
{
    assert(s.byte_at(s.pc as int) == enc_sb(ra, rb, offset)[0]);
    assert(s.byte_at(s.pc + 1) == enc_sb(ra, rb, offset)[1]);
}

/// `halt`, as assembled, jumps to address 0.
pub proof fn law_halt_runs(s: CpuState)
    requires
        s.wf(),
        holds_at(s, s.pc as int, enc_halt()),
    ensures
        s.execute() == Some(s.jump(0)),
{
    let b = enc_halt();
    assert(s.byte_at(s.pc as int) == b[0]);
    assert(s.byte_at(s.pc + 1) == b[1]);
    assert(s.byte_at(s.pc + 2) == b[2]);
    assert(s.byte_at(s.pc + 3) == b[3]);
    assert(s.pc + 1 + 1 == s.pc + 2 && s.pc + 1 + 2 == s.pc + 3);
}

/// `shl ra,rb`, as assembled, for the register pairs whose encodings the
/// decoder knows (`r0` by `r0`..`r2`, and `r2` by `r0`), shifts `ra` left
/// by the low five bits of `rb` (a product with a power of two), keeps 24
/// bits, and moves on by one byte.
pub proof fn law_shl_runs(s: CpuState, ra: u8, rb: u8)
    requires
        s.wf(),
        (ra == 0 && rb <= 2) || (ra == 2 && rb == 0),
        holds_at(s, s.pc as int, enc_shl(ra, rb)),
    ensures
        s.execute() == Some(
            s.with_reg(ra, s.reg(ra) * pow2((s.reg(rb) % 32) as nat)).jump(s.pc + 1),
        ),
{
    assert(s.byte_at(s.pc as int) == enc_shl(ra, rb)[0]);
}

/// `clu ra,rb`, as assembled, for `clu z,r0..r2` and `clu r0,r2`, sets the
/// condition flag to whether `ra` is below `rb` (unsigned) and moves on by
/// one byte.
pub proof fn law_clu_runs(s: CpuState, ra: u8, rb: u8)
    requires
        s.wf(),
        (ra == 5 && rb <= 2) || (ra == 0 && rb == 2),
        holds_at(s, s.pc as int, enc_clu(ra, rb)),
    ensures
        s.execute() == Some(CpuState { c: s.reg(ra) < s.reg(rb), ..s }.jump(s.pc + 1)),
{
    assert(s.byte_at(s.pc as int) == enc_clu(ra, rb)[0]);
}

/// A branch the assembler encodes at output position `s.pc` to a label at
/// `addr` lands on the label when taken: `bra` always, `brf` when the
/// condition flag is clear, `brt` when it is set; otherwise it moves on by
/// two bytes. This holds for targets within the reach of the signed 8-bit
/// offset.
pub proof fn law_branch_runs(s: CpuState, op: u8, addr: u32)
    requires
        s.wf(),
        0x13 <= op <= 0x15,
        addr < 0x1000000,
        -128 <= addr - (s.pc + 2) <= 127,
    ensures
        branch_offset(addr, s.pc + 1) matches Some(b) && (holds_at(s, s.pc as int, seq![op, b])
            ==> s.execute() == Some(
            s.jump(
                if op == 0x13 || (op == 0x14 && !s.c) || (op == 0x15 && s.c) {
                    addr as int
                } else {
                    s.pc + 2
                },
            ),
        )),
{
    let a: u32 = addr;
    let p: u32 = s.pc;
    assert((a as i32) as int == a as int) by (bit_vector)
        requires
            a < 0x1000000,
    ;
    let q: u32 = (p + 1) as u32;
    assert((q as i32) as int == q as int) by (bit_vector)
        requires
            q < 0x1000001,
    ;
    let x: i32 = (addr - (s.pc + 2)) as i32;
    assert(x as int == addr - (s.pc + 2));
    let b = (x as int) as u8;
    assert(branch_offset(addr, s.pc + 1) == Some(b));
    assert(sext8(x as u8) == (if x < 0 {
        x + 0x1000000
    } else {
        x as int
    })) by (bit_vector)
        requires
            -128 <= x <= 127,
    ;
    if holds_at(s, s.pc as int, seq![op, b]) {
        assert(s.byte_at(s.pc as int) == seq![op, b][0]);
        assert(s.byte_at(s.pc + 1) == seq![op, b][1]);
        assert(low24(s.pc + 2 + sext8(b)) == addr);
    }
}

/// The mnemonic of a line's code, in lower case.
pub open spec fn mnemonic(code: Seq<char>) -> Seq<char> {
    ascii_lower(words(code)[0])
}

/// The register the first operand of a line's code names.
pub open spec fn first_reg(code: Seq<char>) -> Option<u8> {
    reg_number(operands(words(code))[0])
}

/// The register the second operand of a line's code names.
pub open spec fn second_reg(code: Seq<char>) -> Option<u8> {
    reg_number(operands(words(code))[1])
}

/// The base register of the memory operand of a line's code.
pub open spec fn base_reg(code: Seq<char>) -> Option<u8> {
    match mem_operand(operands(words(code))[1]) {
        Ok((_, rb)) => Some(rb),
        Err(_) => None,
    }
}

/// The decoder reads back what the assembler wrote: the first byte a line
/// emits decodes to the line's instruction and registers, for the
/// registers whose encodings the decoder knows (`lc`/`lcu` on r0..r3, `la`
/// on r0..r6, `sb`/`shl`/`clu` on the pairs of the laws above, branches,
/// and `halt` as `la ir`).
pub proof fn law_decoder_reads_back(
    code: Seq<char>,
    labels: Map<Seq<char>, u32>,
    len: nat,
    b: Seq<u8>,
)
    requires
        line_effect(code, labels, len) == LineEffect::Emit(b) || (line_effect(
            code,
            labels,
            len,
        ) matches LineEffect::Forward(e, _) && e == b),
    ensures
        mnemonic(code) == ['l', 'c']@ ==> (first_reg(code) matches Some(a) ==> (a <= 3 ==> decoded(
            b[0],
        ) == (OP_LC, a, 0u8))),
        mnemonic(code) == ['l', 'c', 'u']@ ==> (first_reg(code) matches Some(a) ==> (a <= 3
            ==> decoded(b[0]) == (OP_LCU, a, 0u8))),
        mnemonic(code) == ['l', 'a']@ ==> (first_reg(code) matches Some(a) ==> (a <= 6 ==> decoded(
            b[0],
        ) == (OP_LA, a, 0u8))),
        mnemonic(code) == ['s', 'b']@ ==> (first_reg(code) matches Some(a) ==> (base_reg(
            code,
        ) matches Some(r) ==> ((a == 0 && 1 <= r <= 2) || (a == 1 && r <= 2) || (a == 2 && r
            == 0) ==> decoded(b[0]) == (OP_SB, a, r)))),
        mnemonic(code) == ['s', 'h', 'l']@ ==> (first_reg(code) matches Some(a) ==> (second_reg(
            code,
        ) matches Some(r) ==> ((a == 0 && r <= 2) || (a == 2 && r == 0) ==> decoded(b[0]) == (
            OP_SHL,
            a,
            r,
        )))),
        mnemonic(code) == ['c', 'l', 'u']@ ==> (first_reg(code) matches Some(a) ==> (second_reg(
            code,
        ) matches Some(r) ==> ((a == 5 && r <= 2) || (a == 0 && r == 2) ==> decoded(b[0]) == (
            OP_CLU,
            a,
            r,
        )))),
        mnemonic(code) == ['b', 'r', 'a']@ ==> decoded(b[0]) == (OP_BRA, 0u8, 0u8),
        mnemonic(code) == ['b', 'r', 'f']@ ==> decoded(b[0]) == (OP_BRF, 0u8, 0u8),
        mnemonic(code) == ['b', 'r', 't']@ ==> decoded(b[0]) == (OP_BRT, 0u8, 0u8),
        mnemonic(code) == ['h', 'a', 'l', 't']@ ==> decoded(b[0]) == (OP_LA, 7u8, 0u8),
{
    reveal(line_effect);
    assert(['l', 'c', 'u']@.len() != ['l', 'c']@.len());
}

} // verus!
