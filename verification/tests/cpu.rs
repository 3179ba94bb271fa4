use cor24::{decode_instruction, demo_program, led_lamps, Cpu, IO_LEDSWDAT, MEM_SIZE};

const DEMO_BYTES: [u8; 12] = [
    0x2A, 0x00, 0x00, 0xFF, // la r1,0xFF0000
    0x44, 0x00, // lc r0,0
    0x82, 0x00, // loop: sb r0,0(r1)
    0x09, 0x01, // add r0,1
    0x13, 0xFA, // bra loop
];

fn cpu_with(program: &[u8]) -> Cpu {
    let mut cpu = Cpu::new();
    cpu.load_program(program);
    cpu
}

#[test]
fn new_cpu_is_reset() {
    let cpu = Cpu::new();
    assert_eq!(cpu.pc, 0);
    assert_eq!(cpu.regs, [0; 8]);
    assert!(!cpu.c);
    assert!(!cpu.halted);
    assert_eq!(cpu.leds, 0);
    assert_eq!(cpu.prev_leds, 0);
    assert_eq!(cpu.mem.len(), MEM_SIZE);
    assert!(cpu.mem.iter().all(|&b| b == 0));
}

#[test]
fn mask24_keeps_low_24_bits() {
    assert_eq!(Cpu::mask24(0x12345678), 0x345678);
    assert_eq!(Cpu::mask24(0xFFFFFF), 0xFFFFFF);
    assert_eq!(Cpu::mask24(0x1000000), 0);
}

#[test]
fn sign_ext8_extends_to_24_bits() {
    assert_eq!(Cpu::sign_ext8(0x7F), 0x7F);
    assert_eq!(Cpu::sign_ext8(0x80), 0xFFFF80);
    assert_eq!(Cpu::sign_ext8(0xFA), 0xFFFFFA);
    assert_eq!(Cpu::sign_ext8(0), 0);
}

#[test]
fn byte_store_then_load() {
    let mut cpu = Cpu::new();
    cpu.write_byte(0x1234, 0xAB);
    assert_eq!(cpu.read_byte(0x1234), 0xAB);
    assert_eq!(cpu.read_byte(0x1235), 0);
}

#[test]
fn ram_wraps_at_64k_and_addresses_at_24_bits() {
    let mut cpu = Cpu::new();
    cpu.write_byte(0x10005, 7);
    assert_eq!(cpu.read_byte(0x0005), 7);
    assert_eq!(cpu.read_byte(0x0100_0005), 7);
    assert_eq!(cpu.mem[5], 7);
}

#[test]
fn io_page_reads_zero_and_led_register_takes_stores() {
    let mut cpu = Cpu::new();
    cpu.write_byte(IO_LEDSWDAT, 0x5A);
    assert_eq!(cpu.leds, 0x5A);
    assert_eq!(cpu.read_byte(IO_LEDSWDAT), 0);
    cpu.write_byte(0xFF0100, 0x33);
    assert_eq!(cpu.leds, 0x5A);
    assert!(cpu.mem.iter().all(|&b| b == 0));
}

#[test]
fn word_store_then_load_is_little_endian() {
    let mut cpu = Cpu::new();
    cpu.write_word(0x100, 0x123456);
    assert_eq!(cpu.mem[0x100], 0x56);
    assert_eq!(cpu.mem[0x101], 0x34);
    assert_eq!(cpu.mem[0x102], 0x12);
    assert_eq!(cpu.read_word(0x100), 0x123456);
}

#[test]
fn word_store_drops_the_top_byte() {
    let mut cpu = Cpu::new();
    cpu.write_word(0x200, 0xAB123456);
    assert_eq!(cpu.read_word(0x200), 0x123456);
}

#[test]
fn registers_hold_24_bits_and_are_numbered_modulo_8() {
    let mut cpu = Cpu::new();
    cpu.set_reg(9, 0xFF123456);
    assert_eq!(cpu.get_reg(1), 0x123456);
    assert_eq!(cpu.regs[1], 0x123456);
    assert_eq!(cpu.get_reg(0), 0);
}

#[test]
fn led_change_is_reported_once() {
    let mut cpu = Cpu::new();
    assert_eq!(cpu.check_led_change(), None);
    cpu.leds = 3;
    assert_eq!(cpu.check_led_change(), Some(3));
    assert_eq!(cpu.prev_leds, 3);
    assert_eq!(cpu.check_led_change(), None);
}

#[test]
fn load_program_copies_to_the_start_of_memory() {
    let cpu = cpu_with(&[1, 2, 3]);
    assert_eq!(&cpu.mem[..4], &[1, 2, 3, 0]);
    assert_eq!(cpu.read_byte(2), 3);
}

#[test]
fn zero_byte_at_address_zero_halts() {
    let mut cpu = Cpu::new();
    let r = cpu.step();
    assert!(!r.running);
    assert!(cpu.halted);
    let r = cpu.step();
    assert!(!r.running);
    assert_eq!(r.led_update, None);
}

#[test]
fn unknown_instruction_halts() {
    let mut cpu = cpu_with(&[0xFE]);
    let r = cpu.step();
    assert!(!r.running);
    assert!(cpu.halted);
    assert_eq!(cpu.pc, 0);
}

#[test]
fn lc_sign_extends_and_lcu_does_not() {
    let mut cpu = cpu_with(&[0x45, 0xFF, 0x4A, 0xFF]);
    assert!(cpu.step().running);
    assert_eq!(cpu.get_reg(1), 0xFFFFFF);
    assert_eq!(cpu.pc, 2);
    assert!(cpu.step().running);
    assert_eq!(cpu.get_reg(2), 0xFF);
    assert_eq!(cpu.pc, 4);
}

#[test]
fn add_immediate_wraps_at_24_bits() {
    // lc r0,-1 ; add r0,2
    let mut cpu = cpu_with(&[0x44, 0xFF, 0x09, 0x02]);
    cpu.step();
    cpu.step();
    assert_eq!(cpu.get_reg(0), 1);
    assert_eq!(cpu.pc, 4);
}

#[test]
fn la_loads_24_bits_and_la_ir_jumps() {
    let mut cpu = cpu_with(&[0x2B, 0x56, 0x34, 0x12, 0xC7, 0x00, 0x01, 0x00]);
    cpu.step();
    assert_eq!(cpu.get_reg(2), 0x123456);
    assert_eq!(cpu.pc, 4);
    cpu.step();
    assert_eq!(cpu.pc, 0x100);
}

#[test]
fn sb_stores_low_byte_and_reports_leds() {
    // la r1,0xFF0000 ; lc r0,5 ; sb r0,0(r1)
    let mut cpu = cpu_with(&[0x2A, 0x00, 0x00, 0xFF, 0x44, 0x05, 0x82, 0x00]);
    assert_eq!(cpu.step().led_update, None);
    assert_eq!(cpu.step().led_update, None);
    let r = cpu.step();
    assert!(r.running);
    assert_eq!(r.led_update, Some(5));
    assert_eq!(cpu.leds, 5);
}

#[test]
fn sb_with_offset_into_ram() {
    // la r2,0x100 ; lc r1,0x42 ; sb r1,-1(r2) is byte 0x86 (sb r1,(r2))
    let mut cpu = cpu_with(&[0x2B, 0x00, 0x01, 0x00, 0x45, 0x42, 0x86, 0xFF]);
    cpu.step();
    cpu.step();
    cpu.step();
    assert_eq!(cpu.mem[0xFF], 0x42);
}

#[test]
fn shl_shifts_within_24_bits() {
    // lc r0,1 ; lc r1,23 ; shl r0,r1 ; shl r0,r1
    let mut cpu = cpu_with(&[0x44, 0x01, 0x45, 23, 0x89, 0x89]);
    cpu.step();
    cpu.step();
    cpu.step();
    assert_eq!(cpu.get_reg(0), 0x800000);
    assert_eq!(cpu.pc, 5);
    cpu.step();
    assert_eq!(cpu.get_reg(0), 0);
}

#[test]
fn clu_compares_unsigned_and_branches_follow_the_flag() {
    // lc r0,1 ; lc r2,-1 ; clu r0,r2 ; brt +2
    let mut cpu = cpu_with(&[0x44, 0x01, 0x46, 0xFF, 0x20, 0x15, 0x02]);
    cpu.step();
    cpu.step();
    cpu.step();
    assert!(cpu.c);
    cpu.step();
    assert_eq!(cpu.pc, 9);
}

#[test]
fn brf_not_taken_when_flag_set() {
    let mut cpu = cpu_with(&[0x14, 0x10]);
    cpu.c = true;
    cpu.step();
    assert_eq!(cpu.pc, 2);
    let mut cpu = cpu_with(&[0x14, 0x10]);
    cpu.step();
    assert_eq!(cpu.pc, 0x12);
}

#[test]
fn backward_branch_wraps_within_24_bits() {
    let mut cpu = cpu_with(&[0x13, 0x80]);
    cpu.step();
    assert_eq!(cpu.pc, 0xFFFF82);
}

#[test]
fn demo_program_is_the_documented_image() {
    assert_eq!(demo_program(), DEMO_BYTES.to_vec());
}

#[test]
fn demo_counter_after_many_rounds() {
    let mut cpu = cpu_with(&demo_program());
    let k: u32 = 300;
    let mut last = None;
    for _ in 0..(3 + 3 * k) {
        let r = cpu.step();
        assert!(r.running);
        last = r.led_update;
    }
    assert_eq!(cpu.pc, 8);
    assert_eq!(cpu.regs[0], k);
    assert_eq!(cpu.regs[1], 0xFF0000);
    assert_eq!(cpu.leds, (k % 256) as u8);
    assert_eq!(cpu.prev_leds, cpu.leds);
    assert_eq!(last, Some((k % 256) as u8));
    assert!(!cpu.halted);
}

#[test]
fn demo_program_counts_on_the_leds() {
    let mut cpu = cpu_with(&DEMO_BYTES);
    let mut shown = Vec::new();
    let mut steps = 0;
    while steps < 100 {
        let r = cpu.step();
        assert!(r.running);
        if let Some(v) = r.led_update {
            shown.push(v);
        }
        steps += 1;
    }
    assert_eq!(shown, (1..=32).collect::<Vec<u8>>());
    assert_eq!(cpu.leds, 32);
}

#[test]
fn decoder_table_samples() {
    assert_eq!(decode_instruction(0x0A), (0x09, 1, 0));
    assert_eq!(decode_instruction(0x2F), (0x0B, 6, 0));
    assert_eq!(decode_instruction(0xC7), (0x0B, 7, 0));
    assert_eq!(decode_instruction(0x47), (0x0E, 3, 0));
    assert_eq!(decode_instruction(0x48), (0x0F, 0, 0));
    assert_eq!(decode_instruction(0x82), (0x16, 0, 1));
    assert_eq!(decode_instruction(0x8E), (0x17, 2, 0));
    assert_eq!(decode_instruction(0xD0), (0x08, 5, 2));
    assert_eq!(decode_instruction(0x21), (0x08, 2, 0));
    assert_eq!(decode_instruction(0x15), (0x05, 0, 0));
    assert_eq!(decode_instruction(0x00), (0xFF, 0, 0));
    assert_eq!(decode_instruction(0x30), (0xFF, 0, 0));
}

#[test]
fn led_lamps_most_significant_first() {
    assert_eq!(
        led_lamps(0b1010_0001),
        vec![true, false, true, false, false, false, false, true]
    );
    assert_eq!(led_lamps(0), vec![false; 8]);
}
