//! A COR24 toolchain core: the iterative Fibonacci routine of the demo
//! firmware, the instruction decoder and processor model of the emulator,
//! and its two-pass assembler for a small assembly dialect.

pub mod fib;
pub mod decode;
pub mod cpu;
pub mod text;
pub mod number;
pub mod labels;
pub mod assembler;
pub mod agreement;
pub mod source_laws;
pub mod demo;

pub use fib::fibonacci_iter;
pub use decode::decode_instruction;
pub use cpu::{led_lamps, Cpu, CpuState, StepResult, IO_LEDSWDAT, MEM_SIZE};
pub use number::IntErrorKind;
pub use labels::Labels;
pub use demo::demo_program;
pub use assembler::{
    assemble, parse_imm, parse_imm24, parse_mem_operand, parse_reg, try_assemble, AsmError,
};
