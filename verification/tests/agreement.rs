use cor24::{assemble, decode_instruction, Cpu};

fn run(src: &str, steps: usize) -> Cpu {
    let code = assemble(src).unwrap();
    let mut cpu = Cpu::new();
    cpu.load_program(&code);
    for _ in 0..steps {
        cpu.step();
    }
    cpu
}

#[test]
fn assembled_constants_load_as_written() {
    let cpu = run("lc r1,-1\nlcu r2,255\nla r3,0x123456\nla r0,0x1ABCDEF", 4);
    assert_eq!(cpu.get_reg(1), 0xFFFFFF);
    assert_eq!(cpu.get_reg(2), 0xFF);
    assert_eq!(cpu.get_reg(3), 0x123456);
    assert_eq!(cpu.get_reg(0), 0xABCDEF);
    assert_eq!(cpu.pc, 12);
}

#[test]
fn assembled_shift_and_compare_run_as_written() {
    let cpu = run("lc r0,3\nlc r1,4\nshl r0,r1\nclu z,r0", 4);
    assert_eq!(cpu.get_reg(0), 48);
    // z (r5) is 0, below 48.
    assert!(cpu.c);
    assert_eq!(cpu.pc, 6);
}

#[test]
fn assembled_store_writes_through_the_named_registers() {
    // The demo's LED store, assembled: sb r0,0(r1) with r1 at the LED register.
    let code = assemble("la r1,0xFF0000\nlc r0,9\nsb r0,0(r1)").unwrap();
    assert_eq!(code, vec![0x2A, 0x00, 0x00, 0xFF, 0x44, 0x09, 0x82, 0x00]);
    let mut cpu = Cpu::new();
    cpu.load_program(&code);
    cpu.step();
    cpu.step();
    assert_eq!(cpu.step().led_update, Some(9));
    // sb r1,-1(r2) stores r1 below the address in r2.
    let cpu = run("la r2,0x100\nlc r1,0x42\nsb r1,-1(r2)", 3);
    assert_eq!(cpu.mem[0xFF], 0x42);
}

#[test]
fn assembled_halt_jumps_to_zero() {
    let cpu = run("lc r0,1\nhalt", 2);
    assert_eq!(cpu.pc, 0);
}

#[test]
fn assembled_branch_lands_on_its_label() {
    let cpu = run("lc r0,1\nbra skip\nlc r0,2\nskip:\nlc r1,5", 3);
    assert_eq!(cpu.get_reg(0), 1);
    assert_eq!(cpu.get_reg(1), 5);
}

#[test]
fn encodings_the_decoder_reads_otherwise() {
    // lc r4 is emitted as 0x48, which the decoder reads as lcu r0.
    assert_eq!(assemble("lc r4,1").unwrap()[0], 0x48);
    assert_eq!(decode_instruction(0x48), (0x0F, 0, 0));
    // sb r0,0(r0) is emitted as 0x81, outside the decoded subset.
    assert_eq!(decode_instruction(assemble("sb r0,0(r0)").unwrap()[0]), (0xFF, 0, 0));
    // la r7 is emitted as 0x30, outside the decoded subset.
    assert_eq!(decode_instruction(assemble("la ir,0").unwrap()[0]), (0xFF, 0, 0));
}

#[test]
fn decoder_reads_back_assembled_instructions() {
    let first = |src: &str| decode_instruction(assemble(src).unwrap()[0]);
    assert_eq!(first("lc r3,1"), (0x0E, 3, 0));
    assert_eq!(first("lcu r1,1"), (0x0F, 1, 0));
    assert_eq!(first("la r6,1"), (0x0B, 6, 0));
    assert_eq!(first("sb r1,0(r2)"), (0x16, 1, 2));
    assert_eq!(first("shl r0,r2"), (0x17, 0, 2));
    assert_eq!(first("clu z,r2"), (0x08, 5, 2));
    assert_eq!(first("clu r0,r2"), (0x08, 0, 2));
    assert_eq!(first("here:\nbrf here"), (0x04, 0, 0));
    assert_eq!(first("halt"), (0x0B, 7, 0));
}
