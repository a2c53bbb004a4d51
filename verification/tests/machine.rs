use chip8::cpu::{ExecError, CPU};
use chip8::terminal::RawKey;

#[test]
fn new_machine_state() {
    let cpu = CPU::new();
    assert_eq!(cpu.pc, 0x200);
    assert_eq!(cpu.sp, 0);
    assert_eq!(cpu.i, 0);
    assert_eq!(cpu.dt, 0);
    assert_eq!(cpu.st, 0);
    assert_eq!(cpu.memory.len(), 4096);
    // The font glyph for 0 sits at address 0, the one for F at 75.
    assert_eq!(&cpu.memory[0..5], &[0xF0, 0x90, 0x90, 0x90, 0xF0]);
    assert_eq!(&cpu.memory[75..80], &[0xF0, 0x80, 0xF0, 0x80, 0x80]);
    assert_eq!(&cpu.memory[80..84], &[0, 0, 0, 0]);
    assert!(cpu.v.iter().all(|&b| b == 0));
    assert!(cpu.stack.iter().all(|&w| w == 0));
    assert!(!cpu.terminal.exit);
}

#[test]
fn load_copies_program_at_0x200() {
    let mut cpu = CPU::new();
    cpu.load(&[0x12, 0x34, 0x56]);
    assert_eq!(cpu.memory[0x200], 0x12);
    assert_eq!(cpu.memory[0x201], 0x34);
    assert_eq!(cpu.memory[0x202], 0x56);
    assert_eq!(cpu.memory[0x203], 0x00);
    assert_eq!(cpu.memory[0x1FF], 0x00);
}

#[test]
fn tick_executes_and_decrements_timers() {
    let mut cpu = CPU::new();
    cpu.load(&[0x00, 0xE0]); // CLS
    cpu.dt = 5;
    cpu.st = 1;
    cpu.tick().unwrap();
    assert_eq!(cpu.pc, 0x202);
    assert_eq!(cpu.dt, 4);
    assert_eq!(cpu.st, 0);
    cpu.pc = 0x200;
    cpu.tick().unwrap();
    assert_eq!(cpu.dt, 3);
    assert_eq!(cpu.st, 0);
}

#[test]
fn tick_jump_program() {
    let mut cpu = CPU::new();
    cpu.load(&[0x12, 0x00]); // JP 0x200: a tight loop
    cpu.tick().unwrap();
    assert_eq!(cpu.pc, 0x200);
    cpu.tick().unwrap();
    assert_eq!(cpu.pc, 0x200);
}

#[test]
fn unrecognized_instruction_is_fatal_and_leaves_state() {
    let mut cpu = CPU::new();
    cpu.v[3] = 7;
    let r = cpu.execute_instruction((0xF, 3, 0xF, 0xF));
    assert_eq!(r, Err(ExecError::UnrecognizedInstruction));
    assert_eq!(cpu.pc, 0x200);
    assert_eq!(cpu.v[3], 7);
}

#[test]
fn ret_underflows_on_empty_stack() {
    let mut cpu = CPU::new();
    let r = cpu.execute_instruction((0, 0, 0xE, 0xE));
    assert_eq!(r, Err(ExecError::StackUnderflow));
    assert_eq!(cpu.pc, 0x200);
    assert_eq!(cpu.sp, 0);
}

#[test]
fn call_overflows_on_full_stack() {
    let mut cpu = CPU::new();
    cpu.sp = 16;
    let r = cpu.execute_instruction((2, 0xA, 0xB, 0xC));
    assert_eq!(r, Err(ExecError::StackOverflow));
    assert_eq!(cpu.pc, 0x200);
    assert_eq!(cpu.sp, 16);
}

#[test]
fn call_then_ret_returns_past_the_call() {
    let mut cpu = CPU::new();
    cpu.pc = 0x300;
    cpu.execute_instruction((2, 0xA, 0xB, 0xC)).unwrap();
    assert_eq!(cpu.pc, 0xABC);
    cpu.execute_instruction((0, 0, 0xE, 0xE)).unwrap();
    assert_eq!(cpu.pc, 0x302);
    assert_eq!(cpu.sp, 0);
}

#[test]
fn bcd_out_of_bounds_is_fatal() {
    let mut cpu = CPU::new();
    cpu.i = 4094;
    let r = cpu.execute_instruction((0xF, 0, 3, 3));
    assert_eq!(r, Err(ExecError::AddressOutOfBounds));
    assert_eq!(cpu.pc, 0x200);
    assert_eq!(cpu.memory[4094], 0);
}

#[test]
fn bcd_of_zero() {
    let mut cpu = CPU::new();
    cpu.i = 0x300;
    cpu.execute_instruction((0xF, 0, 3, 3)).unwrap();
    assert_eq!(&cpu.memory[0x300..0x303], &[0, 0, 0]);
}

#[test]
fn register_block_out_of_bounds_is_fatal() {
    let mut cpu = CPU::new();
    cpu.i = 4090;
    let r = cpu.execute_instruction((0xF, 7, 5, 5));
    assert_eq!(r, Err(ExecError::AddressOutOfBounds));
    let r = cpu.execute_instruction((0xF, 7, 6, 5));
    assert_eq!(r, Err(ExecError::AddressOutOfBounds));
    assert_eq!(cpu.pc, 0x200);
}

#[test]
fn draw_out_of_bounds_is_fatal() {
    let mut cpu = CPU::new();
    cpu.i = 4090;
    let r = cpu.execute_instruction((0xD, 0, 1, 0xA));
    assert_eq!(r, Err(ExecError::AddressOutOfBounds));
    assert_eq!(cpu.pc, 0x200);
}

#[test]
fn tick_with_pc_outside_memory_is_fatal() {
    let mut cpu = CPU::new();
    cpu.pc = 4095;
    let r = cpu.tick();
    assert_eq!(r, Err(ExecError::AddressOutOfBounds));
    assert_eq!(cpu.pc, 4095);
}

#[test]
fn add_i_vx_wraps_modulo_65536() {
    let mut cpu = CPU::new();
    cpu.i = 0xFFFF;
    cpu.v[1] = 2;
    cpu.execute_instruction((0xF, 1, 1, 0xE)).unwrap();
    assert_eq!(cpu.i, 1);
}

#[test]
fn pc_wraps_modulo_65536() {
    let mut cpu = CPU::new();
    cpu.pc = 0xFFFE;
    cpu.execute_instruction((0, 1, 2, 3)).unwrap(); // SYS: ignored
    assert_eq!(cpu.pc, 0);
}

#[test]
fn rnd_masks_the_random_byte() {
    let mut cpu = CPU::new();
    for _ in 0..32 {
        cpu.execute_instruction((0xC, 3, 0, 0xF)).unwrap();
        assert_eq!(cpu.v[3] & !0x0F, 0);
        cpu.execute_instruction((0xC, 4, 0, 0)).unwrap();
        assert_eq!(cpu.v[4], 0);
    }
}

#[test]
fn draw_instruction_sets_collision_flag() {
    let mut cpu = CPU::new();
    // Point I at the glyph for 0 and draw it twice at the same spot: the
    // second draw erases it and reports the collision in VF.
    cpu.execute_instruction((0xF, 0, 2, 9)).unwrap();
    assert_eq!(cpu.i, 0);
    cpu.v[1] = 3;
    cpu.v[2] = 4;
    cpu.execute_instruction((0xD, 1, 2, 5)).unwrap();
    assert_eq!(cpu.v[0xF], 0);
    assert_ne!(cpu.terminal.pixels[4], 0);
    cpu.execute_instruction((0xD, 1, 2, 5)).unwrap();
    assert_eq!(cpu.v[0xF], 1);
    assert!(cpu.terminal.pixels.iter().all(|&row| row == 0));
}

#[test]
fn skip_if_pressed_consults_the_input_queue() {
    let mut cpu = CPU::new();
    cpu.v[6] = 0xB;
    // No events: SKP does not skip, SKNP does.
    cpu.execute_instruction((0xE, 6, 9, 0xE)).unwrap();
    assert_eq!(cpu.pc, 0x202);
    cpu.execute_instruction((0xE, 6, 0xA, 1)).unwrap();
    assert_eq!(cpu.pc, 0x206);
    // With the key available, SKP skips.
    cpu.terminal.push_key(RawKey::Char('b'));
    cpu.execute_instruction((0xE, 6, 9, 0xE)).unwrap();
    assert_eq!(cpu.pc, 0x20A);
}

#[test]
fn wait_for_key_rewinds_until_a_key_arrives() {
    let mut cpu = CPU::new();
    cpu.load(&[0xF5, 0x0A]); // LD V5, K
    cpu.tick().unwrap();
    assert_eq!(cpu.pc, 0x200); // nothing yet: retried next tick
    cpu.terminal.push_key(RawKey::Char('7'));
    cpu.tick().unwrap();
    assert_eq!(cpu.pc, 0x202);
    assert_eq!(cpu.v[5], 7);
}
