use chip8::cpu::CPU;

#[test]
fn ret() {
    let mut cpu = CPU::new();
    cpu.sp = 1;
    cpu.stack[0] = 0xDDD;
    cpu.execute_instruction((0, 0, 0xE, 0xE)).unwrap();
    assert_eq!(cpu.pc, 0xDDD);
}

#[test]
fn jp() {
    let mut cpu = CPU::new();
    cpu.execute_instruction((2, 0xA, 0xE, 0xF)).unwrap();
    assert_eq!(cpu.pc, 0xAEF);
    assert_eq!(cpu.sp, 1);
    assert_eq!(cpu.stack[0], 0x202);
}

#[test]
fn call() {
    let mut cpu = CPU::new();
    cpu.execute_instruction((1, 0xA, 0xE, 0xF)).unwrap();
    assert_eq!(cpu.pc, 0xAEF);
}

#[test]
fn se_vx_byte() {
    let mut cpu = CPU::new();
    assert_eq!(cpu.pc, 0x200);
    cpu.v[1] = 0xEF;
    cpu.v[2] = 0xAA;
    cpu.execute_instruction((3, 1, 0xE, 0xF)).unwrap();
    assert_eq!(cpu.pc, 0x204);
    cpu.execute_instruction((3, 2, 0xD, 0xD)).unwrap();
    assert_eq!(cpu.pc, 0x206);
}

#[test]
fn sne_vx_byte() {
    let mut cpu = CPU::new();
    assert_eq!(cpu.pc, 0x200);
    cpu.v[1] = 0xEF;
    cpu.v[2] = 0xAA;
    cpu.execute_instruction((4, 1, 0xE, 0xF)).unwrap();
    assert_eq!(cpu.pc, 0x202);
    cpu.execute_instruction((4, 2, 0xD, 0xD)).unwrap();
    assert_eq!(cpu.pc, 0x206);
}

#[test]
fn se_vx_vy() {
    let mut cpu = CPU::new();
    assert_eq!(cpu.pc, 0x200);
    cpu.v[1] = 0xEF;
    cpu.v[2] = 0xAA;
    cpu.v[10] = 0xAA;
    cpu.execute_instruction((5, 2, 10, 0)).unwrap();
    assert_eq!(cpu.pc, 0x204);
    cpu.execute_instruction((5, 1, 2, 0)).unwrap();
    assert_eq!(cpu.pc, 0x206);
}

#[test]
fn ld_vx_byte() {
    let mut cpu = CPU::new();
    cpu.execute_instruction((6, 2, 0xE, 0xA)).unwrap();
    assert_eq!(cpu.v[2], 0xEA);
}

#[test]
fn add_vx_byte() {
    let mut cpu = CPU::new();
    cpu.v[2] = 0x22;
    cpu.execute_instruction((7, 2, 0x4, 0x5)).unwrap();
    assert_eq!(cpu.v[2], 0x67);
}

#[test]
fn ld_vx_vy() {
    let mut cpu = CPU::new();
    cpu.v[3] = 0xEE;
    cpu.execute_instruction((8, 2, 3, 0)).unwrap();
    assert_eq!(cpu.v[2], 0xEE);
}

#[test]
fn or_vx_vy() {
    let mut cpu = CPU::new();
    cpu.v[2] = 0b1100_1001;
    cpu.v[9] = 0b1000_0101;
    cpu.execute_instruction((8, 2, 9, 1)).unwrap();
    assert_eq!(cpu.v[2], 0b1100_1101);
}

#[test]
fn and_vx_vy() {
    let mut cpu = CPU::new();
    cpu.v[2] = 0b1100_1001;
    cpu.v[9] = 0b1000_0101;
    cpu.execute_instruction((8, 2, 9, 2)).unwrap();
    assert_eq!(cpu.v[2], 0b1000_0001);
}

#[test]
fn xor_vx_vy() {
    let mut cpu = CPU::new();
    cpu.v[2] = 0b1100_1001;
    cpu.v[9] = 0b1000_0101;
    cpu.execute_instruction((8, 2, 9, 3)).unwrap();
    assert_eq!(cpu.v[2], 0b0100_1100);
}

#[test]
fn add_vx_vy() {
    let mut cpu = CPU::new();
    cpu.v[2] = 0xAA;
    cpu.v[9] = 0x12;
    cpu.execute_instruction((8, 2, 9, 4)).unwrap();
    assert_eq!(cpu.v[2], 0xBC);
    assert_eq!(cpu.v[0xf], 0);

    cpu.v[2] = 0xFF;
    cpu.v[9] = 0xFF;
    cpu.execute_instruction((8, 2, 9, 4)).unwrap();
    assert_eq!(cpu.v[2], 0xFE);
    assert_eq!(cpu.v[0xf], 1);
}

#[test]
fn sub_vx_vy() {
    let mut cpu = CPU::new();
    cpu.v[2] = 0x0F;
    cpu.v[9] = 0xFF;
    cpu.execute_instruction((8, 2, 9, 5)).unwrap();
    assert_eq!(cpu.v[2], 0x10);
    assert_eq!(cpu.v[0xf], 0);

    cpu.v[2] = 0xFF;
    cpu.v[9] = 0x0F;
    cpu.execute_instruction((8, 2, 9, 5)).unwrap();
    assert_eq!(cpu.v[2], 0xF0);
    assert_eq!(cpu.v[0xf], 1);
}

#[test]
fn shr_vx_vy() {
    let mut cpu = CPU::new();
    cpu.v[2] = 0b0001_0001;
    cpu.execute_instruction((8, 2, 9, 6)).unwrap();
    assert_eq!(cpu.v[2], 0b0000_1000);
    assert_eq!(cpu.v[0xf], 1);

    cpu.v[2] = 0b0001_0000;
    cpu.execute_instruction((8, 2, 9, 6)).unwrap();
    assert_eq!(cpu.v[2], 0b0000_1000);
    assert_eq!(cpu.v[0xf], 0);
}

#[test]
fn subn_vx_vy() {
    let mut cpu = CPU::new();
    cpu.v[9] = 0x0F;
    cpu.v[2] = 0xFF;
    cpu.execute_instruction((8, 2, 9, 7)).unwrap();
    assert_eq!(cpu.v[2], 0x10);
    assert_eq!(cpu.v[0xf], 0);

    cpu.v[9] = 0xFF;
    cpu.v[2] = 0x0F;
    cpu.execute_instruction((8, 2, 9, 7)).unwrap();
    assert_eq!(cpu.v[2], 0xF0);
    assert_eq!(cpu.v[0xf], 1);
}

#[test]
fn shl_vx_vy() {
    let mut cpu = CPU::new();
    cpu.v[2] = 0b0001_0001;
    cpu.execute_instruction((8, 2, 9, 0xE)).unwrap();
    assert_eq!(cpu.v[2], 0b0010_0010);
    assert_eq!(cpu.v[0xf], 0);

    cpu.v[2] = 0b1001_0001;
    cpu.execute_instruction((8, 2, 9, 0xE)).unwrap();
    assert_eq!(cpu.v[2], 0b0010_0010);
    assert_eq!(cpu.v[0xf], 1);
}

#[test]
fn sne_vx_vy() {
    let mut cpu = CPU::new();
    assert_eq!(cpu.pc, 0x200);
    cpu.v[1] = 0xEF;
    cpu.v[2] = 0xAA;
    cpu.v[10] = 0xAA;
    cpu.execute_instruction((9, 2, 10, 0)).unwrap();
    assert_eq!(cpu.pc, 0x202);
    cpu.execute_instruction((9, 1, 2, 0)).unwrap();
    assert_eq!(cpu.pc, 0x206);
}

#[test]
fn ld_i_addr() {
    let mut cpu = CPU::new();
    cpu.execute_instruction((0xA, 0xA, 0xB, 0xC)).unwrap();
    assert_eq!(cpu.i, 0xABC);
}

#[test]
fn jp_v0_addr() {
    let mut cpu = CPU::new();
    cpu.v[0] = 0x11;
    cpu.execute_instruction((0xB, 0xA, 0xB, 0xC)).unwrap();
    assert_eq!(cpu.pc, 0xACD);
}

#[test]
fn ld_vx_dt() {
    let mut cpu = CPU::new();
    cpu.dt = 0x11;
    cpu.execute_instruction((0xF, 4, 0, 7)).unwrap();
    assert_eq!(cpu.v[4], 0x11);
}

#[test]
fn ld_dt_vx() {
    let mut cpu = CPU::new();
    cpu.v[4] = 0x11;
    cpu.execute_instruction((0xF, 4, 1, 5)).unwrap();
    assert_eq!(cpu.dt, 0x11);
}

#[test]
fn ld_st_vx() {
    let mut cpu = CPU::new();
    cpu.v[4] = 0x11;
    cpu.execute_instruction((0xF, 4, 1, 8)).unwrap();
    assert_eq!(cpu.st, 0x11);
}

#[test]
fn add_i_vx() {
    let mut cpu = CPU::new();
    cpu.v[4] = 0x11;
    cpu.i = 0xAA;
    cpu.execute_instruction((0xF, 4, 1, 0xE)).unwrap();
    assert_eq!(cpu.i, 0xBB);
}

#[test]
fn ld_f_vx() {
    let mut cpu = CPU::new();
    cpu.v[4] = 0xA;
    cpu.execute_instruction((0xF, 4, 2, 9)).unwrap();
    assert_eq!(cpu.memory[cpu.i as usize], 0xF0);
    assert_eq!(cpu.memory[cpu.i as usize + 1], 0x90);
    assert_eq!(cpu.memory[cpu.i as usize + 2], 0xF0);
    assert_eq!(cpu.memory[cpu.i as usize + 3], 0x90);
    assert_eq!(cpu.memory[cpu.i as usize + 4], 0x90);

    cpu.v[4] = 0xBA;
    cpu.execute_instruction((0xF, 4, 2, 9)).unwrap();
    assert_eq!(cpu.memory[cpu.i as usize], 0xF0);
    assert_eq!(cpu.memory[cpu.i as usize + 1], 0x90);
    assert_eq!(cpu.memory[cpu.i as usize + 2], 0xF0);
    assert_eq!(cpu.memory[cpu.i as usize + 3], 0x90);
    assert_eq!(cpu.memory[cpu.i as usize + 4], 0x90);
}

#[test]
fn ld_b_vx() {
    let mut cpu = CPU::new();
    cpu.v[4] = 0xFE;
    cpu.i = 0x100;
    cpu.execute_instruction((0xF, 4, 3, 3)).unwrap();
    assert_eq!(cpu.memory[0x100], 2);
    assert_eq!(cpu.memory[0x101], 5);
    assert_eq!(cpu.memory[0x102], 4);
}

#[test]
fn ld_i_vx() {
    let mut cpu = CPU::new();
    cpu.v[0] = 0x12;
    cpu.v[1] = 0x34;
    cpu.v[2] = 0x56;
    cpu.v[3] = 0x78;
    cpu.i = 0x100;
    cpu.execute_instruction((0xF, 3, 5, 5)).unwrap();
    assert_eq!(cpu.memory[0x100], 0x12);
    assert_eq!(cpu.memory[0x101], 0x34);
    assert_eq!(cpu.memory[0x102], 0x56);
    assert_eq!(cpu.memory[0x103], 0x78);
}

#[test]
fn ld_vx_i() {
    let mut cpu = CPU::new();
    cpu.memory[0x100] = 0x12;
    cpu.memory[0x101] = 0x34;
    cpu.memory[0x102] = 0x56;
    cpu.memory[0x103] = 0x78;
    cpu.i = 0x100;
    cpu.execute_instruction((0xF, 3, 6, 5)).unwrap();
    assert_eq!(cpu.v[0], 0x12);
    assert_eq!(cpu.v[1], 0x34);
    assert_eq!(cpu.v[2], 0x56);
    assert_eq!(cpu.v[3], 0x78);
}

#[test]
fn addr() {
    assert_eq!(chip8::cpu::addr(0, 0, 0), 0);
    assert_eq!(chip8::cpu::addr(1, 1, 1), 0b1_0001_0001);
    assert_eq!(chip8::cpu::addr(0b1000, 0b1000, 0b1000), 0b1000_1000_1000);
}

#[test]
fn to_byte() {
    assert_eq!(chip8::cpu::to_byte(0, 0), 0);
    assert_eq!(chip8::cpu::to_byte(0xA, 0xD), 0xAD);
}
