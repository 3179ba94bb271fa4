# cor24

A verified core of a small COR24 toolchain, written in Verus:

- `fib`: the iterative Fibonacci routine of the demo firmware, proved to
  compute `fib(n)` without overflow.
- `decode`, `cpu`: the instruction decoder and the processor model of the
  emulator (24-bit registers and addresses, 64 KiB of RAM, an LED register in
  the I/O page). `Cpu::step` is proved to follow `CpuState::step_result`, and
  the memory, register and halting laws are proved in `cpu.rs`.
- `demo`: the pre-assembled LED counter, with the law that it counts
  0, 1, 2, ... on the LEDs.
- `text`, `number`, `labels`, `assembler`: the two-pass assembler, stated over
  characters. `try_assemble` is proved to give exactly `assembly(source)`;
  `law_layout_matches_output` shows that the first pass lays out labels where
  the second pass puts the code.
- `source_laws`: only the non-blank codes of the lines decide the output
  (comments, blank lines and surrounding blanks change nothing); without
  labels, joined sources assemble to joined code.
- `agreement`: the encodings the assembler emits decode to, and run on the
  processor as, the instructions written, for the register choices the
  decoder knows: `lc`/`lcu` on r0..r3, `la` on r0..r6, `sb` on
  `r0,(r1|r2)`, `r1,(r0..r2)` and `r2,(r0)`, `shl r0,r0..r2` and `shl r2,r0`,
  `clu z,r0..r2` and `clu r0,r2`, the branches and `halt`. Other choices
  (such as `lc r4` or `la r7`) are emitted as bytes the decoder reads as
  another instruction or not at all.

`app/` holds the command-line runner (file reading, printing, the step loop)
and the bare-metal demo firmware.
