use vstd::prelude::*;

use vstd::arithmetic::power2::pow2;

use crate::decode::{
    decode_instruction, decoded, OP_ADD_IMM, OP_BRA, OP_BRF, OP_BRT, OP_CLU, OP_LA, OP_LC, OP_LCU,
    OP_SB, OP_SHL,
};

verus! {

/// Memory-mapped I/O address of the LED register.
pub const IO_LEDSWDAT: u32 = 0xFF0000;

/// Bytes of RAM the emulator gives the CPU.
pub const MEM_SIZE: usize = 65536;

/// Reduction of an integer to the 24-bit word of the machine.
pub open spec fn low24(v: int) -> int {
    v % 0x1000000
}

/// Sign extension of an 8-bit immediate to a 24-bit word.
pub open spec fn sext8(v: u8) -> u32 {
    if v >= 0x80 {
        (0xFFFF00 + v) as u32
    } else {
        v as u32
    }
}

/// The abstract state of the processor.
pub struct CpuState {
    pub pc: u32,
    pub regs: Seq<u32>,
    pub c: bool,
    pub mem: Seq<u8>,
    pub halted: bool,
    pub leds: u8,
    pub prev_leds: u8,
}

impl CpuState {
    /// The state of a freshly reset processor.
    pub open spec fn reset() -> CpuState {
        CpuState {
            pc: 0,
            regs: Seq::new(8, |i: int| 0u32),
            c: false,
            mem: Seq::new(MEM_SIZE as nat, |i: int| 0u8),
            halted: false,
            leds: 0,
            prev_leds: 0,
        }
    }

    /// Well-formedness: the RAM has its fixed size, there are eight
    /// registers, and the program counter is a 24-bit address.
    pub open spec fn wf(self) -> bool {
        &&& self.mem.len() == MEM_SIZE
        &&& self.regs.len() == 8
        &&& self.pc < 0x1000000
    }

    /// Whether an address, reduced to 24 bits, lies below the I/O page.
    pub open spec fn is_ram(addr: int) -> bool {
        low24(addr) < 0xFF0000
    }

    /// The RAM cell that an address below the I/O page names.
    pub open spec fn cell(self, addr: int) -> int {
        low24(addr) % (self.mem.len() as int)
    }

    /// The byte a load from `addr` sees: RAM below the I/O page, zero in it.
    pub open spec fn byte_at(self, addr: int) -> u8 {
        if Self::is_ram(addr) {
            self.mem[self.cell(addr)]
        } else {
            0
        }
    }

    /// The state after a byte store to `addr`: RAM below the I/O page, the
    /// LED register at its address, and nothing elsewhere in the I/O page.
    pub open spec fn store_byte(self, addr: int, val: u8) -> CpuState {
        if Self::is_ram(addr) {
            CpuState { mem: self.mem.update(self.cell(addr), val), ..self }
        } else if low24(addr) == IO_LEDSWDAT {
            CpuState { leds: val, ..self }
        } else {
            self
        }
    }

    /// The little-endian 24-bit word at `addr`.
    pub open spec fn word_at(self, addr: int) -> int {
        self.byte_at(addr) + 256 * self.byte_at(addr + 1) + 65536 * self.byte_at(addr + 2)
    }

    /// The state after a little-endian store of the low 24 bits of `val`.
    pub open spec fn store_word(self, addr: int, val: u32) -> CpuState {
        self.store_byte(addr, (val % 256) as u8).store_byte(
            addr + 1,
            ((val / 256) % 256) as u8,
        ).store_byte(addr + 2, ((val / 65536) % 256) as u8)
    }

    /// Register `r` (taken modulo 8), as a 24-bit value.
    pub open spec fn reg(self, r: u8) -> u32 {
        (self.regs[(r % 8) as int] % 0x1000000) as u32
    }

    /// The state with register `r` (modulo 8) set to the low 24 bits of `v`.
    pub open spec fn with_reg(self, r: u8, v: int) -> CpuState {
        CpuState { regs: self.regs.update((r % 8) as int, low24(v) as u32), ..self }
    }

    /// The state with the program counter set to `pc` reduced to 24 bits.
    pub open spec fn jump(self, pc: int) -> CpuState {
        CpuState { pc: low24(pc) as u32, ..self }
    }

    /// The effect of the instruction at the program counter, or `None` when
    /// its byte lies outside the supported subset.
    pub open spec fn execute(self) -> Option<CpuState> {
        let (op, ra, rb) = decoded(self.byte_at(self.pc as int));
        let imm = self.byte_at(self.pc + 1);
        let next = self.pc + 2;
        if op == OP_ADD_IMM {
            Some(self.with_reg(ra, self.reg(ra) + sext8(imm)).jump(next))
        } else if op == OP_LA {
            let target = self.word_at(self.pc + 1);
            if ra == 7 {
                Some(self.jump(target))
            } else {
                Some(self.with_reg(ra, target).jump(self.pc + 4))
            }
        } else if op == OP_LC {
            Some(self.with_reg(ra, sext8(imm) as int).jump(next))
        } else if op == OP_LCU {
            Some(self.with_reg(ra, imm as int).jump(next))
        } else if op == OP_SB {
            Some(
                self.store_byte(self.reg(rb) + sext8(imm), (self.reg(ra) % 256) as u8).jump(next),
            )
        } else if op == OP_SHL {
            Some(
                self.with_reg(ra, self.reg(ra) * pow2((self.reg(rb) % 32) as nat)).jump(self.pc + 1),
            )
        } else if op == OP_CLU {
            Some(CpuState { c: self.reg(ra) < self.reg(rb), ..self }.jump(self.pc + 1))
        } else if op == OP_BRA || (op == OP_BRF && !self.c) || (op == OP_BRT && self.c) {
            Some(self.jump(next + sext8(imm)))
        } else if op == OP_BRF || op == OP_BRT {
            Some(self.jump(next))
        } else {
            None
        }
    }

    /// The LED bookkeeping after an instruction: the new LED value is
    /// reported when it differs from the one last reported.
    pub open spec fn led_check(self) -> (CpuState, Option<u8>) {
        if self.leds != self.prev_leds {
            (CpuState { prev_leds: self.leds, ..self }, Some(self.leds))
        } else {
            (self, None)
        }
    }

    /// One step of the machine: the next state, whether it keeps running,
    /// and the LED value to display, if it changed.
    pub open spec fn step_result(self) -> (CpuState, bool, Option<u8>) {
        if self.halted {
            (self, false, None)
        } else if self.pc == 0 && self.byte_at(0) == 0 {
            (CpuState { halted: true, ..self }, false, None)
        } else {
            match self.execute() {
                None => (CpuState { halted: true, ..self }, false, None),
                Some(s) => {
                    let (t, led) = s.led_check();
                    (t, true, led)
                },
            }
        }
    }
}

/// The processor of the emulator.
pub struct Cpu {
    pub pc: u32,
    pub regs: [u32; 8],
    pub c: bool,
    pub mem: Vec<u8>,
    pub halted: bool,
    pub leds: u8,
    pub prev_leds: u8,
}

impl View for Cpu {
    type V = CpuState;

    open spec fn view(&self) -> CpuState {
        CpuState {
            pc: self.pc,
            regs: self.regs@,
            c: self.c,
            mem: self.mem@,
            halted: self.halted,
            leds: self.leds,
            prev_leds: self.prev_leds,
        }
    }
}

/// What one step of the processor reports.
pub struct StepResult {
    /// Whether the processor keeps running.
    pub running: bool,
    /// The LED value to display, when it changed during the step.
    pub led_update: Option<u8>,
}

proof fn lemma_mask24(v: u32)
    by (bit_vector)
    ensures
        v & 0xFFFFFF == v % 0x1000000,
{
}

proof fn lemma_io_page(a: u32)
    by (bit_vector)
    requires
        a < 0x1000000,
    ensures
        ((a & 0xFF0000) == 0xFF0000) == (a >= 0xFF0000),
{
}

proof fn lemma_low24_mod32(a: int)
    ensures
        low24(a % 0x1_0000_0000) == low24(a),
{
    assert(low24(a % 0x1_0000_0000) == low24(a)) by (nonlinear_arith);
}

proof fn lemma_shl_mod(x: u32, s: u32)
    requires
        s < 32,
    ensures
        (x << s) as int == (x as int * pow2(s as nat)) % 0x1_0000_0000,
    decreases s,
{
    vstd::arithmetic::power2::lemma2_to64();
    if s == 0 {
        assert(x << 0u32 == x) by (bit_vector);
    } else {
        let t: u32 = (s - 1) as u32;
        lemma_shl_mod(x, t);
        let y: u32 = x << t;
        assert(x << s == y << 1u32) by (bit_vector)
            requires
                s == t + 1,
                t < 31,
                y == x << t,
        ;
        assert((y << 1u32) as int == (y as int * 2) % 0x1_0000_0000) by (bit_vector);
        let a = x as int * pow2(t as nat);
        vstd::arithmetic::div_mod::lemma_mul_mod_noop_left(a, 2, 0x1_0000_0000);
        vstd::arithmetic::power2::lemma_pow2_unfold(s as nat);
        assert(a * 2 == x as int * pow2(s as nat)) by (nonlinear_arith)
            requires
                a == x as int * pow2(t as nat),
                pow2(s as nat) == 2 * pow2(t as nat),
        ;
    }
}

impl Cpu {
    /// A processor fresh from reset: everything zero, 64 KiB of RAM.
    pub fn new() -> (cpu: Self)
        ensures
            cpu@.wf(),
            cpu@ == CpuState::reset(),
    {
        let cpu = Cpu {
            pc: 0,
            regs: [0; 8],
            c: false,
            mem: vec![0; 65536],
            halted: false,
            leds: 0,
            prev_leds: 0,
        };
        assert(cpu@.regs =~= CpuState::reset().regs);
        assert(cpu@.mem =~= CpuState::reset().mem);
        cpu
    }

    /// The low 24 bits of a value.
    pub fn mask24(v: u32) -> (r: u32)
        ensures
            r == low24(v as int),
    {
        proof {
            lemma_mask24(v);
        }
        v & 0xFFFFFF
    }

    /// Sign extension of an 8-bit immediate to 24 bits.
    pub fn sign_ext8(v: u8) -> (r: u32)
        ensures
            r == sext8(v),
    {
        assert((v & 0x80 != 0) == (v >= 0x80)) by (bit_vector);
        assert(0xFFFF00u32 | (v as u32) == 0xFFFF00 + (v as u32)) by (bit_vector);
        if v & 0x80 != 0 {
            0xFFFF00 | (v as u32)
        } else {
            v as u32
        }
    }

    /// Loads a byte; the I/O page reads as zero.
    pub fn read_byte(&self, addr: u32) -> (r: u8)
        requires
            self@.wf(),
        ensures
            r == self@.byte_at(addr as int),
    {
        proof {
            lemma_mask24(addr);
        }
        let addr = addr & 0xFFFFFF;
        proof {
            lemma_io_page(addr);
        }
        if (addr & 0xFF0000) == 0xFF0000 {
            0
        } else {
            self.mem[(addr as usize) % self.mem.len()]
        }
    }

    /// Stores a byte: RAM below the I/O page, the LED register at its
    /// address, and nothing elsewhere in the I/O page.
    pub fn write_byte(&mut self, addr: u32, val: u8)
        requires
            old(self)@.wf(),
        ensures
            final(self)@ == old(self)@.store_byte(addr as int, val),
            final(self)@.wf(),
    {
        proof {
            lemma_mask24(addr);
        }
        let addr = addr & 0xFFFFFF;
        proof {
            lemma_io_page(addr);
        }
        if addr == IO_LEDSWDAT {
            self.leds = val;
        } else if (addr & 0xFF0000) != 0xFF0000 {
            let len = self.mem.len();
            self.mem.set((addr as usize) % len, val);
        }
    }

    /// Loads the little-endian 24-bit word at `addr`.
    pub fn read_word(&self, addr: u32) -> (r: u32)
        requires
            self@.wf(),
        ensures
            r == self@.word_at(addr as int),
    {
        let b0 = self.read_byte(addr) as u32;
        let b1 = self.read_byte(addr.wrapping_add(1)) as u32;
        let b2 = self.read_byte(addr.wrapping_add(2)) as u32;
        proof {
            lemma_low24_mod32(addr + 1);
            lemma_low24_mod32(addr + 2);
            assert(b0 | (b1 << 8) | (b2 << 16) == b0 + 256 * b1 + 65536 * b2) by (bit_vector)
                requires
                    b0 < 256,
                    b1 < 256,
                    b2 < 256,
            ;
        }
        b0 | (b1 << 8) | (b2 << 16)
    }

    /// Stores the low 24 bits of `val` little-endian at `addr`.
    pub fn write_word(&mut self, addr: u32, val: u32)
        requires
            old(self)@.wf(),
        ensures
            final(self)@ == old(self)@.store_word(addr as int, val),
            final(self)@.wf(),
    {
        proof {
            assert((val & 0xFF) as u8 == val % 256) by (bit_vector);
            assert(((val >> 8) & 0xFF) as u8 == (val / 256) % 256) by (bit_vector);
            assert(((val >> 16) & 0xFF) as u8 == (val / 65536) % 256) by (bit_vector);
            lemma_low24_mod32(addr + 1);
            lemma_low24_mod32(addr + 2);
        }
        self.write_byte(addr, (val & 0xFF) as u8);
        self.write_byte(addr.wrapping_add(1), ((val >> 8) & 0xFF) as u8);
        self.write_byte(addr.wrapping_add(2), ((val >> 16) & 0xFF) as u8);
    }

    /// Register `r` (modulo 8) as a 24-bit value.
    pub fn get_reg(&self, r: u8) -> (v: u32)
        requires
            self@.wf(),
        ensures
            v == self@.reg(r),
    {
        proof {
            assert(r & 7 == r % 8) by (bit_vector);
            lemma_mask24(self.regs[(r % 8) as int]);
        }
        self.regs[(r & 7) as usize] & 0xFFFFFF
    }

    /// Sets register `r` (modulo 8) to the low 24 bits of `v`.
    pub fn set_reg(&mut self, r: u8, v: u32)
        requires
            old(self)@.wf(),
        ensures
            final(self)@ == old(self)@.with_reg(r, v as int),
            final(self)@.wf(),
    {
        proof {
            assert(r & 7 == r % 8) by (bit_vector);
            lemma_mask24(v);
        }
        self.regs[(r & 7) as usize] = v & 0xFFFFFF;
        assert(self@.regs =~= old(self)@.with_reg(r, v as int).regs);
    }

    /// Records the LED value as shown and returns it when it changed since
    /// it was last shown.
    pub fn check_led_change(&mut self) -> (shown: Option<u8>)
        ensures
            (final(self)@, shown) == old(self)@.led_check(),
    {
        if self.leds != self.prev_leds {
            self.prev_leds = self.leds;
            Some(self.leds)
        } else {
            None
        }
    }

    /// Copies a program image to the start of RAM.
    pub fn load_program(&mut self, data: &[u8])
        requires
            old(self)@.wf(),
            data@.len() <= old(self)@.mem.len(),
        ensures
            final(self)@ == (CpuState { mem: data@ + old(self)@.mem.skip(data@.len() as int), ..old(self)@ }),
            final(self)@.wf(),
    {
        let mut i: usize = 0;
        while i < data.len()
            invariant
                i <= data@.len() <= old(self)@.mem.len(),
                self@ == (CpuState { mem: self@.mem, ..old(self)@ }),
                self@.mem =~= data@.take(i as int) + old(self)@.mem.skip(i as int),
            decreases data@.len() - i,
        {
            self.mem.set(i, data[i]);
            i += 1;
        }
        assert(data@.take(i as int) =~= data@);
    }

    /// Executes one instruction. Stops (and reports `running == false`) when
    /// already halted, at a zero byte at address 0, or at an instruction
    /// byte outside the supported subset; otherwise reports the LED value
    /// when the instruction changed it.
    #[verifier::rlimit(30)]
    pub fn step(&mut self) -> (res: StepResult)
        requires
            old(self)@.wf(),
        ensures
            final(self)@.wf(),
            (final(self)@, res.running, res.led_update) == old(self)@.step_result(),
    {
        if self.halted {
            return StepResult { running: false, led_update: None };
        }
        let byte0 = self.read_byte(self.pc);
        if byte0 == 0x00 && self.pc == 0 {
            self.halted = true;
            return StepResult { running: false, led_update: None };
        }
        let ghost s0 = self@;
        let (opcode, ra, rb) = decode_instruction(byte0);
        match opcode {
            0x09 => {
                // add ra,imm8
                let imm = self.read_byte(self.pc + 1);
                let val = Self::mask24(self.get_reg(ra).wrapping_add(Self::sign_ext8(imm)));
                self.set_reg(ra, val);
                self.pc = Self::mask24(self.pc + 2);
            },
            0x0B => {
                // la ra,imm24
                let b0 = self.read_byte(self.pc + 1) as u32;
                let b1 = self.read_byte(self.pc + 2) as u32;
                let b2 = self.read_byte(self.pc + 3) as u32;
                proof {
                    assert(b0 | (b1 << 8) | (b2 << 16) == b0 + 256 * b1 + 65536 * b2)
                        by (bit_vector)
                        requires
                            b0 < 256,
                            b1 < 256,
                            b2 < 256,
                    ;
                }
                let imm24 = b0 | (b1 << 8) | (b2 << 16);
                if ra == 7 {
                    // jmp absolute
                    self.pc = imm24;
                } else {
                    self.set_reg(ra, imm24);
                    self.pc = Self::mask24(self.pc + 4);
                }
            },
            0x0E => {
                // lc ra,imm8
                let imm = self.read_byte(self.pc + 1);
                self.set_reg(ra, Self::sign_ext8(imm));
                self.pc = Self::mask24(self.pc + 2);
            },
            0x0F => {
                // lcu ra,imm8
                let imm = self.read_byte(self.pc + 1);
                self.set_reg(ra, imm as u32);
                self.pc = Self::mask24(self.pc + 2);
            },
            0x16 => {
                // sb ra,imm8(rb)
                let imm = self.read_byte(self.pc + 1);
                let addr = Self::mask24(self.get_reg(rb).wrapping_add(Self::sign_ext8(imm)));
                let r = self.get_reg(ra);
                assert(r as u8 == r % 256) by (bit_vector);
                let val = #[verifier::truncate] (r as u8);
                self.write_byte(addr, val);
                self.pc = Self::mask24(self.pc + 2);
            },
            0x17 => {
                // shl ra,rb
                let shift = self.get_reg(rb) & 0x1F;
                proof {
                    let g = self@.reg(rb);
                    assert(g & 0x1F == g % 32) by (bit_vector);
                }
                proof {
                    lemma_shl_mod(self@.reg(ra), shift);
                    lemma_low24_mod32(self@.reg(ra) as int * pow2(shift as nat));
                }
                let val = Self::mask24(self.get_reg(ra) << shift);
                self.set_reg(ra, val);
                self.pc = Self::mask24(self.pc + 1);
            },
            0x08 => {
                // clu ra,rb
                self.c = self.get_reg(ra) < self.get_reg(rb);
                self.pc = Self::mask24(self.pc + 1);
            },
            0x03 => {
                // bra imm8
                let imm = self.read_byte(self.pc + 1);
                let next = Self::mask24(self.pc + 2);
                self.pc = Self::mask24(next.wrapping_add(Self::sign_ext8(imm)));
            },
            0x04 => {
                // brf imm8
                let imm = self.read_byte(self.pc + 1);
                let next = Self::mask24(self.pc + 2);
                if !self.c {
                    self.pc = Self::mask24(next.wrapping_add(Self::sign_ext8(imm)));
                } else {
                    self.pc = next;
                }
            },
            0x05 => {
                // brt imm8
                let imm = self.read_byte(self.pc + 1);
                let next = Self::mask24(self.pc + 2);
                if self.c {
                    self.pc = Self::mask24(next.wrapping_add(Self::sign_ext8(imm)));
                } else {
                    self.pc = next;
                }
            },
            _ => {
                // unknown instruction: halt
                self.halted = true;
                return StepResult { running: false, led_update: None };
            },
        }
        assert(s0.execute() == Some(self@));
        let led_update = self.check_led_change();
        StepResult { running: true, led_update }
    }

}

/// A byte load sees the last byte stored to the same RAM cell; a store
/// changes no other cell, and the I/O page reads as zero whatever is stored.
pub proof fn law_byte_read_after_write(s: CpuState, a: int, b: int, v: u8)
    requires
        s.wf(),
    ensures
        s.store_byte(a, v).byte_at(b) == (if CpuState::is_ram(a) && CpuState::is_ram(b) && s.cell(a)
            == s.cell(b) {
            v
        } else {
            s.byte_at(b)
        }),
{
}

/// A word load at an address whose three bytes lie below the I/O page
/// gives back the low 24 bits of the word last stored there.
pub proof fn law_word_read_after_write(s: CpuState, a: u32, v: u32)
    requires
        s.wf(),
        low24(a as int) + 2 < IO_LEDSWDAT,
    ensures
        s.store_word(a as int, v).word_at(a as int) == low24(v as int),
{
    let x = low24(a as int);
    assert(low24(a + 1) == x + 1 && low24(a + 2) == x + 2) by (nonlinear_arith)
        requires
            x == low24(a as int),
            x + 2 < 0xFF0000,
    ;
    assert((v % 256) + 256 * ((v / 256) % 256) + 65536 * ((v / 65536) % 256) == v % 0x1000000)
        by (bit_vector);
    let m = s.mem.len() as int;
    assert(m == 65536);
    assert(x % m != (x + 1) % m && x % m != (x + 2) % m && (x + 1) % m != (x + 2) % m)
        by (nonlinear_arith)
        requires
            m == 65536,
            0 <= x,
    ;
    let b0 = (v % 256) as u8;
    let b1 = ((v / 256) % 256) as u8;
    let b2 = ((v / 65536) % 256) as u8;
    let s1 = s.store_byte(a as int, b0);
    let s2 = s1.store_byte(a + 1, b1);
    let s3 = s2.store_byte(a + 2, b2);
    assert(s3.byte_at(a as int) == b0);
    assert(s3.byte_at(a + 1) == b1);
    assert(s3.byte_at(a + 2) == b2);
}

/// Reading a register gives the low 24 bits of the value last written to
/// it (registers are numbered modulo 8); writing one leaves the others.
pub proof fn law_register_read_after_write(s: CpuState, r: u8, q: u8, v: int)
    requires
        s.wf(),
    ensures
        s.with_reg(r, v).reg(q) == (if r % 8 == q % 8 {
            low24(v)
        } else {
            s.reg(q) as int
        }),
{
}

/// A step keeps the state well-formed.
pub proof fn law_step_keeps_wf(s: CpuState)
    requires
        s.wf(),
    ensures
        s.step_result().0.wf(),
{
    if !s.halted && !(s.pc == 0 && s.byte_at(0) == 0) {
        let (op, ra, rb) = decoded(s.byte_at(s.pc as int));
        if op == OP_LA && ra == 7 {
            assert(s.word_at(s.pc + 1) < 0x1000000);
        }
    }
}

/// Halting is final: a halted processor stays as it is and reports that it
/// has stopped; a step that reports a stop leaves the processor halted.
pub proof fn law_halt_is_final(s: CpuState)
    ensures
        s.halted ==> s.step_result() == (s, false, Option::<u8>::None),
        !s.step_result().1 ==> s.step_result().0.halted,
        !s.step_result().1 ==> s.step_result().0.step_result() == (
            s.step_result().0,
            false,
            Option::<u8>::None,
        ),
{
}

/// After a step that keeps running, the displayed LED value is the current
/// one, and a value is reported exactly when it differs from the one shown
/// before the step.
pub proof fn law_led_report(s: CpuState)
    requires
        s.wf(),
        s.step_result().1,
    ensures
        s.step_result().0.prev_leds == s.step_result().0.leds,
        s.step_result().2 == (if s.step_result().0.leds != s.prev_leds {
            Some(s.step_result().0.leds)
        } else {
            None
        }),
{
    let e = s.execute().unwrap();
    assert(e.prev_leds == s.prev_leds);
}

/// After a program is loaded, its bytes are what loads from the start of
/// memory see.
pub proof fn law_loaded_program_visible(s: CpuState, data: Seq<u8>, i: int)
    requires
        s.wf(),
        data.len() <= s.mem.len(),
        0 <= i < data.len(),
    ensures
        (CpuState { mem: data + s.mem.skip(data.len() as int), ..s }).byte_at(i) == data[i],
{
    let t = CpuState { mem: data + s.mem.skip(data.len() as int), ..s };
    assert(t.mem.len() == MEM_SIZE);
    assert(low24(i) == i);
    assert(t.cell(i) == i);
}

/// Whether bit `k` of `v` is set.
pub open spec fn bit_set(v: u8, k: nat) -> bool {
    (v as nat / vstd::arithmetic::power2::pow2(k)) % 2 == 1
}

/// The eight LED lamps for a value of the LED register, most significant
/// bit first: `true` for a lit lamp.
pub fn led_lamps(leds: u8) -> (lamps: Vec<bool>)
    ensures
        lamps@.len() == 8,
        forall|i: int| 0 <= i < 8 ==> lamps@[i] == bit_set(leds, (7 - i) as nat),
{
    let mut lamps: Vec<bool> = Vec::new();
    let mut k: u8 = 8;
    while k > 0
        invariant
            k <= 8,
            lamps@.len() == 8 - k,
            forall|i: int| 0 <= i < 8 - k ==> lamps@[i] == bit_set(leds, (7 - i) as nat),
        decreases k,
    {
        k -= 1;
        let shifted = leds >> k;
        proof {
            vstd::bits::lemma_u8_shr_is_div(leds, k);
            assert((shifted & 1 == 1) == (shifted % 2 == 1)) by (bit_vector);
        }
        lamps.push((leds >> k) & 1 == 1);
    }
    lamps
}

/// The value of a byte read as a signed 8-bit number, -128..127.
pub open spec fn signed_byte(b: u8) -> int {
    if b < 0x80 {
        b as int
    } else {
        b - 256
    }
}

/// `add ra,imm8` (bytes 0x09, 0x0A, 0x0B for r0, r1, r2) adds its immediate,
/// read as a signed byte, to the register, keeping the low 24 bits, and
/// moves on by two bytes; a step on it runs on and leaves the register so.
pub proof fn law_add_immediate(s: CpuState, ra: u8, imm: u8)
    requires
        s.wf(),
        ra <= 2,
        s.byte_at(s.pc as int) == 0x09 + ra,
        s.byte_at(s.pc + 1) == imm,
    ensures
        s.execute() == Some(s.with_reg(ra, s.reg(ra) + signed_byte(imm)).jump(s.pc + 2)),
        !s.halted ==> s.step_result().1 && s.step_result().0.reg(ra) == (s.reg(ra) + signed_byte(
            imm,
        )) % 0x1000000 && s.step_result().0.pc == (s.pc + 2) % 0x1000000,
{
    let x = s.reg(ra) + signed_byte(imm);
    if imm >= 0x80 {
        assert(s.reg(ra) + sext8(imm) == x + 0x1000000);
        vstd::arithmetic::div_mod::lemma_mod_add_multiples_vanish(x, 0x1000000);
    }
    assert(low24(s.reg(ra) + sext8(imm)) == low24(x));
    let t = s.with_reg(ra, x).jump(s.pc + 2);
    assert(t.regs[(ra % 8) as int] == low24(x));
    assert(low24(x) % 0x1000000 == low24(x));
}

/// The byte 0x21, `clu r2,r0`, sets the condition flag to whether r2 is
/// below r0 (unsigned) and moves on by one byte.
pub proof fn law_clu_r2_r0(s: CpuState)
    requires
        s.wf(),
        s.byte_at(s.pc as int) == 0x21,
    ensures
        s.execute() == Some(CpuState { c: s.reg(2) < s.reg(0), ..s }.jump(s.pc + 1)),
{
}

/// Sign extension maps a byte to its signed value, taken modulo 2^24.
pub proof fn law_sign_extension(v: u8)
    ensures
        sext8(v) as int == signed_byte(v) % 0x1000000,
        sext8(v) < 0x1000000,
{
}

/// A byte store to the LED register sets the LED value; a store elsewhere
/// leaves it; no store changes the program counter, the registers, the
/// condition flag, the halt flag or the value last shown.
pub proof fn law_led_store(s: CpuState, a: int, v: u8)
    requires
        s.wf(),
    ensures
        s.store_byte(a, v).leds == (if low24(a) == 0xFF0000 {
            v
        } else {
            s.leds
        }),
        s.store_byte(a, v).pc == s.pc,
        s.store_byte(a, v).regs == s.regs,
        s.store_byte(a, v).c == s.c,
        s.store_byte(a, v).halted == s.halted,
        s.store_byte(a, v).prev_leds == s.prev_leds,
        s.store_byte(a, v).wf(),
{
}

/// The absolute jump (byte 0xC7, `la ir,imm24`) sets the program counter
/// to the little-endian 24-bit address in the three bytes after it.
pub proof fn law_jump_absolute(s: CpuState)
    requires
        s.wf(),
        s.byte_at(s.pc as int) == 0xC7,
    ensures
        s.execute() == Some(
            s.jump(
                s.byte_at(s.pc + 1) + 256 * s.byte_at(s.pc + 2) + 65536 * s.byte_at(s.pc + 3),
            ),
        ),
{
    assert(s.pc + 1 + 1 == s.pc + 2 && s.pc + 1 + 2 == s.pc + 3);
}

/// The instruction bytes of the supported subset: add r0..r2, la r0..r6,
/// the absolute jump, lc and lcu r0..r3, sb, shl, clu and the branches.
pub open spec fn supported_byte(b: u8) -> bool {
    ||| 0x09 <= b <= 0x0B
    ||| 0x29 <= b <= 0x2F
    ||| b == 0xC7
    ||| 0x44 <= b <= 0x4B
    ||| 0x82 <= b <= 0x8A
    ||| b == 0x8E
    ||| 0xCE <= b <= 0xD0
    ||| b == 0x20
    ||| b == 0x21
    ||| 0x13 <= b <= 0x15
}

/// A step runs on exactly when the processor is not halted, is not at a
/// zero byte at address 0, and the byte at the program counter is a
/// supported instruction; a step that stops leaves everything else as it
/// was and sets the halt flag.
pub proof fn law_step_runs_on(s: CpuState)
    requires
        s.wf(),
    ensures
        s.step_result().1 <==> (!s.halted && !(s.pc == 0 && s.byte_at(0) == 0) && supported_byte(
            s.byte_at(s.pc as int),
        )),
        !s.step_result().1 ==> s.step_result().0 == (CpuState { halted: true, ..s }),
        !s.step_result().1 ==> s.step_result().2 is None,
{
}

} // verus!
