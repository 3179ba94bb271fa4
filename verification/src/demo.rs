//! The LED counter demo that the runner loads by default, and the law that
//! it counts 0, 1, 2, ... on the LEDs.

use vstd::prelude::*;

use crate::cpu::{CpuState, MEM_SIZE};

verus! {

/// The demo image:
/// `la r1,0xFF0000; lc r0,0; loop: sb r0,0(r1); add r0,1; bra loop`.
pub open spec fn demo_image() -> Seq<u8> {
    seq![0x2Au8, 0x00, 0x00, 0xFF, 0x44, 0x00, 0x82, 0x00, 0x09, 0x01, 0x13, 0xFA]
}

/// The demo image, pre-assembled.
pub fn demo_program() -> (v: Vec<u8>)
    ensures
        v@ == demo_image(),
{
    let mut v: Vec<u8> = Vec::new();
    // 0x00: la r1,0xFF0000 - LED address
    v.push(0x2A);
    v.push(0x00);
    v.push(0x00);
    v.push(0xFF);
    // 0x04: lc r0,0 - counter = 0
    v.push(0x44);
    v.push(0x00);
    // 0x06: loop: sb r0,0(r1) - write to LEDs
    v.push(0x82);
    v.push(0x00);
    // 0x08: add r0,1 - counter++
    v.push(0x09);
    v.push(0x01);
    // 0x0A: bra loop - offset 0x06 - 0x0C = -6
    v.push(0x13);
    v.push(0xFA);
    assert(v@ =~= demo_image());
    v
}

/// A reset processor with the demo loaded at address 0.
pub open spec fn demo_loaded() -> CpuState {
    CpuState { mem: demo_image() + CpuState::reset().mem.skip(12), ..CpuState::reset() }
}

/// The state after `n` steps.
pub open spec fn run_steps(s: CpuState, n: nat) -> CpuState
    decreases n,
{
    if n == 0 {
        s
    } else {
        run_steps(s.step_result().0, (n - 1) as nat)
    }
}

/// Whether each of the next `n` steps reports that the processor runs on.
pub open spec fn runs(s: CpuState, n: nat) -> bool
    decreases n,
{
    if n == 0 {
        true
    } else {
        s.step_result().1 && runs(s.step_result().0, (n - 1) as nat)
    }
}

/// The demo at the top of its loop with counter `k`: about to add one, with
/// `k` (modulo 2^24) in r0, the LED address in r1, and `k` (modulo 256) on
/// the LEDs and shown.
pub open spec fn counting(s: CpuState, k: nat) -> bool {
    &&& s.wf()
    &&& s.mem.take(12) == demo_image()
    &&& s.pc == 8
    &&& s.regs[0] == k % 0x1000000
    &&& s.regs[1] == 0xFF0000
    &&& s.leds == (k % 256) as u8
    &&& s.prev_leds == s.leds
    &&& !s.halted
}

proof fn lemma_run_steps_split(s: CpuState, a: nat, b: nat)
    ensures
        run_steps(s, a + b) == run_steps(run_steps(s, a), b),
        runs(s, a + b) == (runs(s, a) && runs(run_steps(s, a), b)),
    decreases a,
{
    if a > 0 {
        lemma_run_steps_split(s.step_result().0, (a - 1) as nat, b);
        assert((a + b - 1) as nat == (a - 1) as nat + b);
    }
}

proof fn lemma_demo_bytes(s: CpuState)
    requires
        s.wf(),
        s.mem.take(12) == demo_image(),
    ensures
        forall|a: int| 0 <= a < 12 ==> #[trigger] s.byte_at(a) == demo_image()[a],
{
    assert forall|a: int| 0 <= a < 12 implies #[trigger] s.byte_at(a) == demo_image()[a] by {
        assert(s.mem.take(12)[a] == s.mem[a]);
    }
}

/// The demo starts counting: three steps after loading, it is at the top of
/// its loop with counter 0, and each step runs on.
pub proof fn law_demo_start()
    ensures
        runs(demo_loaded(), 3),
        counting(run_steps(demo_loaded(), 3), 0),
{
    let s0 = demo_loaded();
    assert(s0.mem.len() == MEM_SIZE);
    assert(s0.mem.take(12) =~= demo_image());
    lemma_demo_bytes(s0);
    let s1 = s0.step_result().0;
    assert(s1.mem == s0.mem);
    lemma_demo_bytes(s1);
    let s2 = s1.step_result().0;
    lemma_demo_bytes(s2);
    let s3 = s2.step_result().0;
    assert(s3.mem == s0.mem);
    assert(run_steps(s0, 3) == s3) by {
        reveal_with_fuel(run_steps, 4);
    }
    assert(runs(s0, 3)) by {
        reveal_with_fuel(runs, 4);
    }
}

/// One round of the demo loop: from counter `k`, three steps (add, branch,
/// store) run on and reach counter `k + 1`, and the store reports the new
/// LED value `k + 1` (modulo 256).
pub proof fn law_demo_round(s: CpuState, k: nat)
    requires
        counting(s, k),
    ensures
        runs(s, 3),
        counting(run_steps(s, 3), k + 1),
        run_steps(s, 2).step_result().2 == Some(((k + 1) % 256) as u8),
{
    lemma_demo_bytes(s);
    assert((k % 0x1000000 + 1) % 0x1000000 == (k + 1) % 0x1000000) by (nonlinear_arith);
    assert(((k + 1) % 0x1000000) % 256 == (k + 1) % 256) by (nonlinear_arith);
    assert((k + 1) % 256 != k % 256) by (nonlinear_arith);
    let s1 = s.step_result().0;
    lemma_demo_bytes(s1);
    let s2 = s1.step_result().0;
    lemma_demo_bytes(s2);
    let s3 = s2.step_result().0;
    assert(run_steps(s, 3) == s3 && run_steps(s, 2) == s2) by {
        reveal_with_fuel(run_steps, 4);
    }
    assert(runs(s, 3)) by {
        reveal_with_fuel(runs, 4);
    }
}

/// The demo counts on the LEDs: after `3 + 3k` steps from loading, every
/// step has run on and the demo is at the top of its loop with counter `k`;
/// for `k >= 1` the last of those steps reported `k` (modulo 256) for the
/// LEDs.
pub proof fn law_demo_counts(k: nat)
    ensures
        runs(demo_loaded(), 3 + 3 * k),
        counting(run_steps(demo_loaded(), 3 + 3 * k), k),
        k >= 1 ==> run_steps(demo_loaded(), 2 + 3 * k).step_result().2 == Some(
            (k % 256) as u8,
        ),
    decreases k,
{
    let s0 = demo_loaded();
    if k == 0 {
        law_demo_start();
    } else {
        let j = (k - 1) as nat;
        law_demo_counts(j);
        let s = run_steps(s0, 3 + 3 * j);
        law_demo_round(s, j);
        lemma_run_steps_split(s0, 3 + 3 * j, 3);
        lemma_run_steps_split(s0, 3 + 3 * j, 2);
        assert(3 + 3 * j + 3 == 3 + 3 * k);
        assert(3 + 3 * j + 2 == 2 + 3 * k);
    }
}

} // verus!
