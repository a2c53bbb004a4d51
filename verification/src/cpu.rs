//! The interpreter: memory, registers, call stack and timers, together with
//! the fetch-decode-execute cycle over the 35-opcode instruction set. The
//! interpreter exclusively owns one [`Terminal`] and drives it at instruction
//! granularity (draw, skip-if-pressed, wait-for-key).
//!
//! Failure policy: an instruction pattern outside the instruction set, a
//! `CALL` on a full stack, a `RET` on an empty one, and a memory access past
//! address 0xFFF are all deterministic fatal errors that leave the machine
//! exactly as it was. Additions to the program counter and to the index
//! register wrap modulo 2^16 (the index register is deliberately not masked
//! to the 12-bit address space).

use vstd::prelude::*;

use crate::terminal::{
    blank_pixels, check_spec, draw_collides, draw_seq, is_exit_key, key_code, RawKey, TermView,
    Terminal,
};

verus! {

/// A fatal condition that stops the run; the machine state is left unchanged.
#[derive(Clone, Copy, PartialEq, Eq, Structural, Debug)]
pub enum ExecError {
    /// The instruction bit pattern matches no known opcode family.
    UnrecognizedInstruction,
    /// A `CALL` was executed with all 16 stack slots in use.
    StackOverflow,
    /// A `RET` was executed with no return address on the stack.
    StackUnderflow,
    /// An instruction would read or write past address 0xFFF.
    AddressOutOfBounds,
}

/// The mathematical state of the whole machine.
#[verifier::ext_equal]
pub ghost struct CpuView {
    /// 4096 bytes; 0x000-0x04F hold the font table, programs start at 0x200.
    pub memory: Seq<u8>,
    /// 16 slots of return addresses; only the first `sp` are in use.
    pub stack: Seq<u16>,
    /// The 16 general registers V0-VF.
    pub v: Seq<u8>,
    /// The index register I.
    pub i: u16,
    /// The delay timer.
    pub dt: u8,
    /// The sound timer.
    pub st: u8,
    /// The program counter.
    pub pc: u16,
    /// The stack pointer: the number of stack slots in use.
    pub sp: u8,
    /// The display/input subsystem.
    pub term: TermView,
}

impl CpuView {
    pub open spec fn wf(self) -> bool {
        &&& self.memory.len() == 4096
        &&& self.stack.len() == 16
        &&& self.v.len() == 16
        &&& self.sp <= 16
        &&& self.term.wf()
    }
}

/// `n` reduced modulo 2^16, as the 16-bit registers hold it.
pub open spec fn wrap16(n: int) -> u16 {
    (n % 0x10000) as u16
}

/// The byte `k1 k2` built from two 4-bit fields.
pub open spec fn byte2(k1: u8, k2: u8) -> u8 {
    (k1 * 16 + k2) as u8
}

/// The 12-bit address `a b c` built from three 4-bit fields.
pub open spec fn addr3(a: u8, b: u8, c: u8) -> u16 {
    (a * 256 + b * 16 + c) as u16
}

/// The fixed font table: 16 glyphs of 5 bytes each.
pub open spec fn font() -> Seq<u8> {
    seq![
        0xF0u8, 0x90, 0x90, 0x90, 0xF0, // 0
        0x20, 0x60, 0x20, 0x20, 0x70, // 1
        0xF0, 0x10, 0xF0, 0x80, 0xF0, // 2
        0xF0, 0x10, 0xF0, 0x10, 0xF0, // 3
        0x90, 0x90, 0xF0, 0x10, 0x10, // 4
        0xF0, 0x80, 0xF0, 0x10, 0xF0, // 5
        0xF0, 0x80, 0xF0, 0x90, 0xF0, // 6
        0xF0, 0x10, 0x20, 0x40, 0x40, // 7
        0xF0, 0x90, 0xF0, 0x90, 0xF0, // 8
        0xF0, 0x90, 0xF0, 0x10, 0xF0, // 9
        0xF0, 0x90, 0xF0, 0x90, 0x90, // A
        0xE0, 0x90, 0xE0, 0x90, 0xE0, // B
        0xF0, 0x80, 0x80, 0x80, 0xF0, // C
        0xE0, 0x90, 0x90, 0x90, 0xE0, // D
        0xF0, 0x80, 0xF0, 0x80, 0xF0, // E
        0xF0, 0x80, 0xF0, 0x80, 0x80, // F
    ]
}

/// The machine as it is initialized once per run: font loaded at address 0,
/// everything else zeroed, the program counter at 0x200.
pub open spec fn initial_cpu() -> CpuView {
    CpuView {
        memory: Seq::new(4096, |j: int| if j < 80 { font()[j] } else { 0u8 }),
        stack: Seq::new(16, |j: int| 0u16),
        v: Seq::new(16, |j: int| 0u8),
        i: 0,
        dt: 0,
        st: 0,
        pc: 0x200,
        sp: 0,
        term: TermView {
            pixels: blank_pixels(),
            unprocessed: Seq::<u8>::empty(),
            incoming: Seq::<RawKey>::empty(),
            exit: false,
        },
    }
}

/// The register file after `ADD Vx, Vy`: VF becomes the carry out of the
/// 9-bit sum, Vx the sum modulo 256 (in that order, so VF wins when x = F).
pub open spec fn alu_add_regs(v: Seq<u8>, x: int, y: int) -> Seq<u8> {
    let sum = v[x] + v[y];
    v.update(15, if sum > 255 { 1u8 } else { 0u8 }).update(x, (sum % 256) as u8)
}

/// The register file after `SUB Vx, Vy`: VF = 1 exactly when Vx >= Vy, and
/// Vx becomes Vx - Vy modulo 256.
pub open spec fn alu_sub_regs(v: Seq<u8>, x: int, y: int) -> Seq<u8> {
    v.update(15, if v[x] >= v[y] { 1u8 } else { 0u8 }).update(x, ((v[x] - v[y]) % 256) as u8)
}

/// The register file after `SUBN Vx, Vy`: VF = 1 exactly when Vy >= Vx, and
/// Vx becomes Vy - Vx modulo 256.
pub open spec fn alu_subn_regs(v: Seq<u8>, x: int, y: int) -> Seq<u8> {
    v.update(15, if v[y] >= v[x] { 1u8 } else { 0u8 }).update(x, ((v[y] - v[x]) % 256) as u8)
}

/// The register file after `SHR Vx`: VF receives the bit shifted out (the
/// least significant bit), Vx the value shifted right once.
pub open spec fn alu_shr_regs(v: Seq<u8>, x: int) -> Seq<u8> {
    v.update(15, v[x] & 1).update(x, v[x] >> 1u8)
}

/// The register file after `SHL Vx`: VF receives the bit shifted out (the
/// most significant bit), Vx the value shifted left once, truncated to 8 bits.
pub open spec fn alu_shl_regs(v: Seq<u8>, x: int) -> Seq<u8> {
    v.update(15, v[x] >> 7u8).update(x, v[x] << 1u8)
}

/// Memory after the BCD store: the hundreds, tens and units digits of `vx`
/// at addresses `i`, `i + 1`, `i + 2`.
pub open spec fn bcd_mem(memory: Seq<u8>, i: int, vx: u8) -> Seq<u8> {
    memory.update(i, (vx / 100) as u8).update(i + 1, ((vx % 100) / 10) as u8).update(
        i + 2,
        (vx % 10) as u8,
    )
}

/// Memory after `LD [I], Vx`: registers V0..Vx copied to addresses i..i+x.
pub open spec fn store_regs_mem(memory: Seq<u8>, v: Seq<u8>, i: int, x: int) -> Seq<u8> {
    Seq::new(4096, |j: int| if i <= j <= i + x { v[j - i] } else { memory[j] })
}

/// Registers after `LD Vx, [I]`: addresses i..i+x copied to V0..Vx.
pub open spec fn load_regs(v: Seq<u8>, memory: Seq<u8>, i: int, x: int) -> Seq<u8> {
    Seq::new(16, |j: int| if j <= x { memory[i + j] } else { v[j] })
}

/// What one executed instruction leaves behind.
#[verifier::ext_equal]
pub ghost struct StepOut {
    pub post: CpuView,
    pub result: Result<(), ExecError>,
}

pub open spec fn step_ok(post: CpuView) -> StepOut {
    StepOut { post, result: Ok(()) }
}

pub open spec fn step_err(pre: CpuView, e: ExecError) -> StepOut {
    StepOut { post: pre, result: Err(e) }
}

/// The machine after executing one decoded instruction on state `pre`.
/// The program counter is advanced past the instruction before dispatch, so
/// jump and call targets are absolute and a skip adds another two bytes.
/// `rb` is the byte the random source yields, which only `RND` reads.
/// On an error the machine is left exactly as it was.
pub open spec fn step(pre: CpuView, instr: (u8, u8, u8, u8), rb: u8) -> StepOut {
    let t = CpuView { pc: wrap16(pre.pc + 2), ..pre };
    match instr {
        // CLS
        (0x0, 0x0, 0xE, 0x0) => step_ok(
            CpuView { term: TermView { pixels: blank_pixels(), ..t.term }, ..t },
        ),
        // RET
        (0x0, 0x0, 0xE, 0xE) => if pre.sp == 0 {
            step_err(pre, ExecError::StackUnderflow)
        } else {
            step_ok(CpuView { pc: t.stack[pre.sp - 1], sp: (pre.sp - 1) as u8, ..t })
        },
        // SYS: ignored by modern interpreters
        (0x0, _, _, _) => step_ok(t),
        // JP addr
        (0x1, a, b, c) => step_ok(CpuView { pc: addr3(a, b, c), ..t }),
        // CALL addr
        (0x2, a, b, c) => if pre.sp >= 16 {
            step_err(pre, ExecError::StackOverflow)
        } else {
            step_ok(
                CpuView {
                    stack: t.stack.update(pre.sp as int, t.pc),
                    sp: (pre.sp + 1) as u8,
                    pc: addr3(a, b, c),
                    ..t
                },
            )
        },
        // SE Vx, byte
        (0x3, x, k1, k2) => step_ok(
            CpuView {
                pc: if t.v[x as int] == byte2(k1, k2) { wrap16(t.pc + 2) } else { t.pc },
                ..t
            },
        ),
        // SNE Vx, byte
        (0x4, x, k1, k2) => step_ok(
            CpuView {
                pc: if t.v[x as int] != byte2(k1, k2) { wrap16(t.pc + 2) } else { t.pc },
                ..t
            },
        ),
        // SE Vx, Vy
        (0x5, x, y, 0x0) => step_ok(
            CpuView { pc: if t.v[x as int] == t.v[y as int] { wrap16(t.pc + 2) } else { t.pc }, ..t },
        ),
        // LD Vx, byte
        (0x6, x, k1, k2) => step_ok(CpuView { v: t.v.update(x as int, byte2(k1, k2)), ..t }),
        // ADD Vx, byte: 8-bit wraparound, no flag
        (0x7, x, k1, k2) => step_ok(
            CpuView {
                v: t.v.update(x as int, ((t.v[x as int] + byte2(k1, k2)) % 256) as u8),
                ..t
            },
        ),
        // LD Vx, Vy
        (0x8, x, y, 0x0) => step_ok(CpuView { v: t.v.update(x as int, t.v[y as int]), ..t }),
        // OR Vx, Vy
        (0x8, x, y, 0x1) => step_ok(
            CpuView { v: t.v.update(x as int, t.v[x as int] | t.v[y as int]), ..t },
        ),
        // AND Vx, Vy
        (0x8, x, y, 0x2) => step_ok(
            CpuView { v: t.v.update(x as int, t.v[x as int] & t.v[y as int]), ..t },
        ),
        // XOR Vx, Vy
        (0x8, x, y, 0x3) => step_ok(
            CpuView { v: t.v.update(x as int, t.v[x as int] ^ t.v[y as int]), ..t },
        ),
        // ADD Vx, Vy
        (0x8, x, y, 0x4) => step_ok(CpuView { v: alu_add_regs(t.v, x as int, y as int), ..t }),
        // SUB Vx, Vy
        (0x8, x, y, 0x5) => step_ok(CpuView { v: alu_sub_regs(t.v, x as int, y as int), ..t }),
        // SHR Vx
        (0x8, x, _, 0x6) => step_ok(CpuView { v: alu_shr_regs(t.v, x as int), ..t }),
        // SUBN Vx, Vy
        (0x8, x, y, 0x7) => step_ok(CpuView { v: alu_subn_regs(t.v, x as int, y as int), ..t }),
        // SHL Vx
        (0x8, x, _, 0xE) => step_ok(CpuView { v: alu_shl_regs(t.v, x as int), ..t }),
        // SNE Vx, Vy
        (0x9, x, y, 0x0) => step_ok(
            CpuView { pc: if t.v[x as int] != t.v[y as int] { wrap16(t.pc + 2) } else { t.pc }, ..t },
        ),
        // LD I, addr
        (0xA, a, b, c) => step_ok(CpuView { i: addr3(a, b, c), ..t }),
        // JP V0, addr
        (0xB, a, b, c) => step_ok(CpuView { pc: (t.v[0] + addr3(a, b, c)) as u16, ..t }),
        // RND Vx, byte
        (0xC, x, k1, k2) => step_ok(CpuView { v: t.v.update(x as int, rb & byte2(k1, k2)), ..t }),
        // DRW Vx, Vy, nibble
        (0xD, x, y, n) => if pre.i + n > 4096 {
            step_err(pre, ExecError::AddressOutOfBounds)
        } else {
            let sprite = t.memory.subrange(pre.i as int, pre.i + n);
            let hit = draw_collides(t.term.pixels, t.v[x as int], t.v[y as int] as int, sprite);
            step_ok(
                CpuView {
                    v: t.v.update(15, if hit { 1u8 } else { 0u8 }),
                    term: TermView {
                        pixels: draw_seq(t.term.pixels, t.v[x as int], t.v[y as int] as int, sprite),
                        ..t.term
                    },
                    ..t
                },
            )
        },
        // SKP Vx
        (0xE, x, 0x9, 0xE) => {
            let c = check_spec(t.term, t.v[x as int]);
            step_ok(
                CpuView { term: c.state, pc: if c.found { wrap16(t.pc + 2) } else { t.pc }, ..t },
            )
        },
        // SKNP Vx
        (0xE, x, 0xA, 0x1) => {
            let c = check_spec(t.term, t.v[x as int]);
            step_ok(
                CpuView { term: c.state, pc: if c.found { t.pc } else { wrap16(t.pc + 2) }, ..t },
            )
        },
        // LD Vx, DT
        (0xF, x, 0x0, 0x7) => step_ok(CpuView { v: t.v.update(x as int, t.dt), ..t }),
        // LD Vx, K: consume at most one raw event; rewind and retry when no
        // key is decoded this tick
        (0xF, x, 0x0, 0xA) => if t.term.incoming.len() == 0 {
            step_ok(CpuView { pc: pre.pc, ..t })
        } else {
            let k = t.term.incoming[0];
            let term2 = TermView {
                incoming: t.term.incoming.drop_first(),
                exit: t.term.exit || is_exit_key(k),
                ..t.term
            };
            match key_code(k) {
                Some(code) => step_ok(CpuView { v: t.v.update(x as int, code), term: term2, ..t }),
                None => step_ok(CpuView { pc: pre.pc, term: term2, ..t }),
            }
        },
        // LD DT, Vx
        (0xF, x, 0x1, 0x5) => step_ok(CpuView { dt: t.v[x as int], ..t }),
        // LD ST, Vx
        (0xF, x, 0x1, 0x8) => step_ok(CpuView { st: t.v[x as int], ..t }),
        // ADD I, Vx: wraps modulo 2^16, never masked to 12 bits
        (0xF, x, 0x1, 0xE) => step_ok(CpuView { i: wrap16(t.i + t.v[x as int]), ..t }),
        // LD F, Vx: the glyph for the low nibble of Vx
        (0xF, x, 0x2, 0x9) => step_ok(CpuView { i: ((t.v[x as int] % 16) * 5) as u16, ..t }),
        // LD B, Vx
        (0xF, x, 0x3, 0x3) => if pre.i + 2 >= 4096 {
            step_err(pre, ExecError::AddressOutOfBounds)
        } else {
            step_ok(CpuView { memory: bcd_mem(t.memory, pre.i as int, t.v[x as int]), ..t })
        },
        // LD [I], Vx
        (0xF, x, 0x5, 0x5) => if pre.i + x >= 4096 {
            step_err(pre, ExecError::AddressOutOfBounds)
        } else {
            step_ok(CpuView { memory: store_regs_mem(t.memory, t.v, pre.i as int, x as int), ..t })
        },
        // LD Vx, [I]
        (0xF, x, 0x6, 0x5) => if pre.i + x >= 4096 {
            step_err(pre, ExecError::AddressOutOfBounds)
        } else {
            step_ok(CpuView { v: load_regs(t.v, t.memory, pre.i as int, x as int), ..t })
        },
        _ => step_err(pre, ExecError::UnrecognizedInstruction),
    }
}

/// Combines two 4-bit fields into one byte: `a` becomes the high nibble,
/// `b` the low nibble.
pub fn to_byte(a: u8, b: u8) -> (r: u8)
    requires
        a < 16,
        b < 16,
    ensures
        r == byte2(a, b),
{
    proof {
        assert(a < 16 && b < 16 ==> (a << 4) == a * 16 && a * 16 + b < 256) by (bit_vector);
    }
    (a << 4) + b
}

/// Combines three 4-bit fields into a 12-bit address.
pub fn addr(a: u8, b: u8, c: u8) -> (r: u16)
    requires
        a < 16,
        b < 16,
        c < 16,
    ensures
        r == addr3(a, b, c),
        r < 4096,
{
    proof {
        assert(a < 16 && b < 16 && c < 16 ==> ((a as u16) << 8) == a * 256 && ((b as u16) << 4)
            == b * 16 && a * 256 + b * 16 + c < 4096) by (bit_vector);
    }
    ((a as u16) << 8) + ((b as u16) << 4) + (c as u16)
}

/// Relies on `rand::random`: one byte from the thread-local random number
/// generator. Nothing is assumed about its value.
#[verifier::external_body]
fn random_byte() -> u8 {
    rand::random::<u8>()
}

/// The interpreter. Fields are plain state; the well-formedness the methods
/// keep is [`CpuView::wf`].
pub struct CPU {
    pub terminal: Terminal,
    pub memory: Vec<u8>,
    pub stack: Vec<u16>,
    pub v: Vec<u8>,
    pub i: u16,
    pub dt: u8,
    pub st: u8,
    pub pc: u16,
    pub sp: u8,
}

impl View for CPU {
    type V = CpuView;

    open spec fn view(&self) -> CpuView {
        CpuView {
            memory: self.memory@,
            stack: self.stack@,
            v: self.v@,
            i: self.i,
            dt: self.dt,
            st: self.st,
            pc: self.pc,
            sp: self.sp,
            term: self.terminal@,
        }
    }
}

impl CPU {
    pub open spec fn wf(&self) -> bool {
        self@.wf()
    }

    /// A freshly initialized machine: font loaded, registers and timers
    /// zeroed, the program counter at 0x200.
    pub fn new() -> (c: CPU)
        ensures
            c.wf(),
            c@ == initial_cpu(),
    {
        let mut memory: Vec<u8> = vec![
            0xF0, 0x90, 0x90, 0x90, 0xF0, // 0
            0x20, 0x60, 0x20, 0x20, 0x70, // 1
            0xF0, 0x10, 0xF0, 0x80, 0xF0, // 2
            0xF0, 0x10, 0xF0, 0x10, 0xF0, // 3
            0x90, 0x90, 0xF0, 0x10, 0x10, // 4
            0xF0, 0x80, 0xF0, 0x10, 0xF0, // 5
            0xF0, 0x80, 0xF0, 0x90, 0xF0, // 6
            0xF0, 0x10, 0x20, 0x40, 0x40, // 7
            0xF0, 0x90, 0xF0, 0x90, 0xF0, // 8
            0xF0, 0x90, 0xF0, 0x10, 0xF0, // 9
            0xF0, 0x90, 0xF0, 0x90, 0x90, // A
            0xE0, 0x90, 0xE0, 0x90, 0xE0, // B
            0xF0, 0x80, 0x80, 0x80, 0xF0, // C
            0xE0, 0x90, 0x90, 0x90, 0xE0, // D
            0xF0, 0x80, 0xF0, 0x80, 0xF0, // E
            0xF0, 0x80, 0xF0, 0x80, 0x80, // F
        ];
        proof {
            assert(memory@ =~= font());
        }
        while memory.len() < 4096
            invariant
                80 <= memory@.len() <= 4096,
                memory@.take(80) =~= font(),
                forall|j: int| 80 <= j < memory@.len() ==> memory@[j] == 0u8,
            decreases 4096 - memory@.len(),
        {
            memory.push(0);
        }
        let mut stack: Vec<u16> = Vec::new();
        while stack.len() < 16
            invariant
                stack@.len() <= 16,
                forall|j: int| 0 <= j < stack@.len() ==> stack@[j] == 0u16,
            decreases 16 - stack@.len(),
        {
            stack.push(0);
        }
        let mut v: Vec<u8> = Vec::new();
        while v.len() < 16
            invariant
                v@.len() <= 16,
                forall|j: int| 0 <= j < v@.len() ==> v@[j] == 0u8,
            decreases 16 - v@.len(),
        {
            v.push(0);
        }
        let c = CPU {
            terminal: Terminal::new(),
            memory,
            stack,
            v,
            i: 0,
            dt: 0,
            st: 0,
            pc: 0x200,
            sp: 0,
        };
        proof {
            assert(c@.memory =~= initial_cpu().memory);
            assert(c@.stack =~= initial_cpu().stack);
            assert(c@.v =~= initial_cpu().v);
            assert(c@ =~~= initial_cpu());
        }
        c
    }

    /// Copies a program image verbatim into memory starting at address 0x200;
    /// everything outside the image is untouched.
    pub fn load(&mut self, data: &[u8])
        requires
            old(self).wf(),
            data@.len() <= 3584,
        ensures
            final(self).wf(),
            final(self)@ == (CpuView {
                memory: old(self)@.memory.take(512) + data@ + old(self)@.memory.skip(
                    512 + data@.len() as int,
                ),
                ..old(self)@
            }),
    {
        let mut j: usize = 0;
        while j < data.len()
            invariant
                old(self).wf(),
                data@.len() <= 3584,
                j <= data@.len(),
                self@ == (CpuView {
                    memory: old(self)@.memory.take(512) + data@.take(j as int) + old(
                        self,
                    )@.memory.skip(512 + j),
                    ..old(self)@
                }),
            decreases data@.len() - j,
        {
            proof {
                assert((old(self)@.memory.take(512) + data@.take(j as int) + old(
                    self,
                )@.memory.skip(512 + j)).update(512 + j, data@[j as int]) =~= old(
                    self,
                )@.memory.take(512) + data@.take(j as int + 1) + old(self)@.memory.skip(
                    512 + j + 1,
                ));
            }
            let b = data[j];
            self.memory.set(512 + j, b);
            j += 1;
        }
        proof {
            assert(data@.take(data@.len() as int) =~= data@);
        }
    }

    /// Fetches and decodes the two instruction bytes at the program counter
    /// into four 4-bit fields.
    fn read_instruction(&self) -> (r: (u8, u8, u8, u8))
        requires
            self.wf(),
            self@.pc + 1 < 4096,
        ensures
            r == decode_at(self@),
            r.0 < 16 && r.1 < 16 && r.2 < 16 && r.3 < 16,
    {
        let first_byte = self.memory[self.pc as usize];
        let second_byte = self.memory[self.pc as usize + 1];
        proof {
            assert(first_byte >> 4 < 16 && first_byte & 0xF < 16 && second_byte >> 4 < 16
                && second_byte & 0xF < 16) by (bit_vector);
        }
        (first_byte >> 4, first_byte & 0xF, second_byte >> 4, second_byte & 0xF)
    }
}

/// The four 4-bit fields of the instruction at the program counter.
pub open spec fn decode_at(s: CpuView) -> (u8, u8, u8, u8) {
    let b1 = s.memory[s.pc as int];
    let b2 = s.memory[s.pc as int + 1];
    (b1 >> 4u8, b1 & 0xF, b2 >> 4u8, b2 & 0xF)
}

/// The timers after one frame: each decrements independently, floored at 0.
pub open spec fn tick_timers(s: CpuView) -> CpuView {
    CpuView {
        dt: if s.dt > 0 {
            (s.dt - 1) as u8
        } else {
            0
        },
        st: if s.st > 0 {
            (s.st - 1) as u8
        } else {
            0
        },
        ..s
    }
}

proof fn lemma_wrap16(n: int)
    requires
        0 <= n < 0x20000,
    ensures
        wrap16(n) == if n < 0x10000 { n } else { n - 0x10000 },
{
}

proof fn lemma_mod256(d: int)
    requires
        -256 < d < 256,
    ensures
        d % 256 == if d < 0 { d + 256 } else { d },
{
}

/// `a + b` reduced modulo 2^16.
fn wrapping_add16(a: u16, b: u16) -> (r: u16)
    ensures
        r == wrap16(a + b),
{
    proof {
        lemma_wrap16(a + b);
    }
    a.wrapping_add(b)
}

/// Undoes one `wrapping_add16(pc, 2)`.
fn rewind2(a: u16) -> (r: u16)
    ensures
        wrap16(r + 2) == a,
        forall|p: u16| a == #[trigger] wrap16(p + 2) ==> r == p,
    {
    proof {
        lemma_wrap16(a + 0x10000 - 2 + 2);
        lemma_wrap16(a + 2);
        assert forall|p: u16| a == #[trigger] wrap16(p + 2) implies a.wrapping_sub(2) == p by {
            lemma_wrap16(p + 2);
        }
    }
    a.wrapping_sub(2)
}

impl CPU {
    /// One cycle: fetches the instruction at the program counter, executes
    /// it, then decrements each timer that is above zero. The driver renders
    /// the framebuffer and paces real time around this call. A fatal error
    /// (including a program counter outside memory) leaves the machine
    /// exactly as it was.
    pub fn tick(&mut self) -> (r: Result<(), ExecError>)
        requires
            old(self).wf(),
        ensures
            final(self).wf(),
            old(self)@.pc + 1 >= 4096 ==> r == Err::<(), ExecError>(ExecError::AddressOutOfBounds)
                && final(self)@ == old(self)@,
            old(self)@.pc + 1 < 4096 ==> ({
                let instr = decode_at(old(self)@);
                &&& r == step(old(self)@, instr, 0).result
                &&& (r is Err ==> final(self)@ == old(self)@)
                &&& (r is Ok && instr.0 != 0xC ==> final(self)@ == tick_timers(
                    step(old(self)@, instr, 0).post,
                ))
                &&& (r is Ok && instr.0 == 0xC ==> (exists|rb: u8|
                    final(self)@ == tick_timers((#[trigger] step(old(self)@, instr, rb)).post)))
            }),
    {
        if self.pc as usize + 1 >= 4096 {
            return Err(ExecError::AddressOutOfBounds);
        }
        let instruction = self.read_instruction();
        match self.execute_instruction(instruction) {
            Err(e) => Err(e),
            Ok(()) => {
                if self.dt > 0 {
                    self.dt -= 1;
                }
                if self.st > 0 {
                    self.st -= 1;
                }
                Ok(())
            },
        }
    }

    /// Executes one decoded instruction: advances the program counter past
    /// it, then dispatches exactly as [`step`] says. A fatal condition is
    /// reported as an error and leaves the machine exactly as it was.
    /// The byte that `RND` masks comes from the random source, so for that
    /// one opcode only the existence of some byte behind the result is known.
    pub fn execute_instruction(&mut self, instruction: (u8, u8, u8, u8)) -> (r: Result<
        (),
        ExecError,
    >)
        requires
            old(self).wf(),
            instruction.0 < 16,
            instruction.1 < 16,
            instruction.2 < 16,
            instruction.3 < 16,
        ensures
            final(self).wf(),
            r == step(old(self)@, instruction, 0).result,
            instruction.0 != 0xC ==> final(self)@ == step(old(self)@, instruction, 0).post,
            instruction.0 == 0xC ==> (exists|rb: u8|
                final(self)@ == (#[trigger] step(old(self)@, instruction, rb)).post),
    {
        self.pc = wrapping_add16(self.pc, 2);
        match instruction {
            // CLS
            (0x0, 0x0, 0xE, 0x0) => {
                self.terminal.clear();
                proof {
                    assert(self@ =~~= step(old(self)@, instruction, 0).post);
                }
                Ok(())
            },
            // RET
            (0x0, 0x0, 0xE, 0xE) => {
                if self.sp == 0 {
                    self.pc = rewind2(self.pc);
                    proof {
                        assert(self@ =~~= old(self)@);
                    }
                    Err(ExecError::StackUnderflow)
                } else {
                    self.ret();
                    proof {
                        assert(self@ =~~= step(old(self)@, instruction, 0).post);
                    }
                    Ok(())
                }
            },
            // SYS: ignored by modern interpreters
            (0x0, _, _, _) => {
                proof {
                    assert(self@ =~~= step(old(self)@, instruction, 0).post);
                }
                Ok(())
            },
            // JP addr
            (0x1, a, b, c) => {
                self.pc = addr(a, b, c);
                proof {
                    assert(self@ =~~= step(old(self)@, instruction, 0).post);
                }
                Ok(())
            },
            // CALL addr
            (0x2, a, b, c) => {
                if self.sp >= 16 {
                    self.pc = rewind2(self.pc);
                    proof {
                        assert(self@ =~~= old(self)@);
                    }
                    Err(ExecError::StackOverflow)
                } else {
                    self.call_addr(a, b, c);
                    proof {
                        assert(self@ =~~= step(old(self)@, instruction, 0).post);
                    }
                    Ok(())
                }
            },
            // SE Vx, byte
            (0x3, x, k1, k2) => {
                self.se_vx_byte(x, k1, k2);
                proof {
                    assert(self@ =~~= step(old(self)@, instruction, 0).post);
                }
                Ok(())
            },
            // SNE Vx, byte
            (0x4, x, k1, k2) => {
                self.sne_vx_byte(x, k1, k2);
                proof {
                    assert(self@ =~~= step(old(self)@, instruction, 0).post);
                }
                Ok(())
            },
            // SE Vx, Vy
            (0x5, x, y, 0x0) => {
                self.se_vx_vy(x, y);
                proof {
                    assert(self@ =~~= step(old(self)@, instruction, 0).post);
                }
                Ok(())
            },
            // LD Vx, byte
            (0x6, x, k1, k2) => {
                let b = to_byte(k1, k2);
                self.v.set(x as usize, b);
                proof {
                    assert(self@ =~~= step(old(self)@, instruction, 0).post);
                }
                Ok(())
            },
            // ADD Vx, byte
            (0x7, x, k1, k2) => {
                let sum = self.v[x as usize] as u16 + to_byte(k1, k2) as u16;
                self.v.set(x as usize, (sum % 256) as u8);
                proof {
                    assert(self@ =~~= step(old(self)@, instruction, 0).post);
                }
                Ok(())
            },
            // LD Vx, Vy
            (0x8, x, y, 0x0) => {
                let vy = self.v[y as usize];
                self.v.set(x as usize, vy);
                proof {
                    assert(self@ =~~= step(old(self)@, instruction, 0).post);
                }
                Ok(())
            },
            // OR Vx, Vy
            (0x8, x, y, 0x1) => {
                let val = self.v[x as usize] | self.v[y as usize];
                self.v.set(x as usize, val);
                proof {
                    assert(self@ =~~= step(old(self)@, instruction, 0).post);
                }
                Ok(())
            },
            // AND Vx, Vy
            (0x8, x, y, 0x2) => {
                let val = self.v[x as usize] & self.v[y as usize];
                self.v.set(x as usize, val);
                proof {
                    assert(self@ =~~= step(old(self)@, instruction, 0).post);
                }
                Ok(())
            },
            // XOR Vx, Vy
            (0x8, x, y, 0x3) => {
                let val = self.v[x as usize] ^ self.v[y as usize];
                self.v.set(x as usize, val);
                proof {
                    assert(self@ =~~= step(old(self)@, instruction, 0).post);
                }
                Ok(())
            },
            // ADD Vx, Vy
            (0x8, x, y, 0x4) => {
                self.add_vx_vy(x, y);
                proof {
                    assert(self@ =~~= step(old(self)@, instruction, 0).post);
                }
                Ok(())
            },
            // SUB Vx, Vy
            (0x8, x, y, 0x5) => {
                self.sub_vx_vy(x, y);
                proof {
                    assert(self@ =~~= step(old(self)@, instruction, 0).post);
                }
                Ok(())
            },
            // SHR Vx
            (0x8, x, _, 0x6) => {
                self.shr_vx(x);
                proof {
                    assert(self@ =~~= step(old(self)@, instruction, 0).post);
                }
                Ok(())
            },
            // SUBN Vx, Vy
            (0x8, x, y, 0x7) => {
                self.subn_vx_vy(x, y);
                proof {
                    assert(self@ =~~= step(old(self)@, instruction, 0).post);
                }
                Ok(())
            },
            // SHL Vx
            (0x8, x, _, 0xE) => {
                self.shl_vx(x);
                proof {
                    assert(self@ =~~= step(old(self)@, instruction, 0).post);
                }
                Ok(())
            },
            // SNE Vx, Vy
            (0x9, x, y, 0x0) => {
                self.sne_vx_vy(x, y);
                proof {
                    assert(self@ =~~= step(old(self)@, instruction, 0).post);
                }
                Ok(())
            },
            // LD I, addr
            (0xA, a, b, c) => {
                self.i = addr(a, b, c);
                proof {
                    assert(self@ =~~= step(old(self)@, instruction, 0).post);
                }
                Ok(())
            },
            // JP V0, addr
            (0xB, a, b, c) => {
                self.pc = self.v[0] as u16 + addr(a, b, c);
                proof {
                    assert(self@ =~~= step(old(self)@, instruction, 0).post);
                }
                Ok(())
            },
            // RND Vx, byte
            (0xC, x, k1, k2) => {
                let rnd = random_byte();
                let kk = to_byte(k1, k2);
                self.v.set(x as usize, rnd & kk);
                proof {
                    assert(self@ =~~= step(old(self)@, instruction, rnd).post);
                }
                Ok(())
            },
            // DRW Vx, Vy, nibble
            (0xD, x, y, n) => {
                let i_us = self.i as usize;
                if i_us + n as usize > 4096 {
                    self.pc = rewind2(self.pc);
                    proof {
                        assert(self@ =~~= old(self)@);
                    }
                    Err(ExecError::AddressOutOfBounds)
                } else {
                    let mut sprite: Vec<u8> = Vec::new();
                    let mut j: usize = 0;
                    while j < n as usize
                        invariant
                            old(self).wf(),
                            self@ == (CpuView { pc: wrap16(old(self)@.pc + 2), ..old(self)@ }),
                            i_us == self@.i,
                            i_us + n <= 4096,
                            j <= n,
                            sprite@ =~= self@.memory.subrange(i_us as int, i_us + j),
                        decreases n - j,
                    {
                        let b = self.memory[i_us + j];
                        proof {
                            assert(self@.memory.subrange(i_us as int, i_us + j).push(b)
                                =~= self@.memory.subrange(i_us as int, i_us + j + 1));
                        }
                        sprite.push(b);
                        j += 1;
                    }
                    let vx = self.v[x as usize];
                    let vy = self.v[y as usize];
                    let flag = self.terminal.draw_sprite(vx, vy, sprite.as_slice());
                    self.v.set(15, flag);
                    proof {
                        assert(self@ =~~= step(old(self)@, instruction, 0).post);
                    }
                    Ok(())
                }
            },
            // SKP Vx
            (0xE, x, 0x9, 0xE) => {
                let vx = self.v[x as usize];
                if self.terminal.check_if_pressed(vx) {
                    self.pc = wrapping_add16(self.pc, 2);
                }
                proof {
                    assert(self@ =~~= step(old(self)@, instruction, 0).post);
                }
                Ok(())
            },
            // SKNP Vx
            (0xE, x, 0xA, 0x1) => {
                let vx = self.v[x as usize];
                if !self.terminal.check_if_pressed(vx) {
                    self.pc = wrapping_add16(self.pc, 2);
                }
                proof {
                    assert(self@ =~~= step(old(self)@, instruction, 0).post);
                }
                Ok(())
            },
            // LD Vx, DT
            (0xF, x, 0x0, 0x7) => {
                let d = self.dt;
                self.v.set(x as usize, d);
                proof {
                    assert(self@ =~~= step(old(self)@, instruction, 0).post);
                }
                Ok(())
            },
            // LD Vx, K
            (0xF, x, 0x0, 0xA) => {
                match self.terminal.wait_for_key_press() {
                    Some(key) => self.v.set(x as usize, key),
                    None => self.pc = rewind2(self.pc),
                }
                proof {
                    assert(self@ =~~= step(old(self)@, instruction, 0).post);
                }
                Ok(())
            },
            // LD DT, Vx
            (0xF, x, 0x1, 0x5) => {
                self.dt = self.v[x as usize];
                proof {
                    assert(self@ =~~= step(old(self)@, instruction, 0).post);
                }
                Ok(())
            },
            // LD ST, Vx
            (0xF, x, 0x1, 0x8) => {
                self.st = self.v[x as usize];
                proof {
                    assert(self@ =~~= step(old(self)@, instruction, 0).post);
                }
                Ok(())
            },
            // ADD I, Vx
            (0xF, x, 0x1, 0xE) => {
                let vx = self.v[x as usize];
                self.i = wrapping_add16(self.i, vx as u16);
                proof {
                    assert(self@ =~~= step(old(self)@, instruction, 0).post);
                }
                Ok(())
            },
            // LD F, Vx
            (0xF, x, 0x2, 0x9) => {
                let g = self.v[x as usize] & 0xF;
                proof {
                    let vx = self.v@[x as int];
                    assert(vx & 0xF == vx % 16) by (bit_vector);
                }
                self.i = g as u16 * 5;
                proof {
                    assert(self@ =~~= step(old(self)@, instruction, 0).post);
                }
                Ok(())
            },
            // LD B, Vx
            (0xF, x, 0x3, 0x3) => {
                if self.i as usize + 2 >= 4096 {
                    self.pc = rewind2(self.pc);
                    proof {
                        assert(self@ =~~= old(self)@);
                    }
                    Err(ExecError::AddressOutOfBounds)
                } else {
                    self.ld_b_vx(x);
                    proof {
                        assert(self@ =~~= step(old(self)@, instruction, 0).post);
                    }
                    Ok(())
                }
            },
            // LD [I], Vx
            (0xF, x, 0x5, 0x5) => {
                if self.i as usize + x as usize >= 4096 {
                    self.pc = rewind2(self.pc);
                    proof {
                        assert(self@ =~~= old(self)@);
                    }
                    Err(ExecError::AddressOutOfBounds)
                } else {
                    self.ld_i_vx(x);
                    proof {
                        assert(self@ =~~= step(old(self)@, instruction, 0).post);
                    }
                    Ok(())
                }
            },
            // LD Vx, [I]
            (0xF, x, 0x6, 0x5) => {
                if self.i as usize + x as usize >= 4096 {
                    self.pc = rewind2(self.pc);
                    proof {
                        assert(self@ =~~= old(self)@);
                    }
                    Err(ExecError::AddressOutOfBounds)
                } else {
                    self.ld_vx_i(x);
                    proof {
                        assert(self@ =~~= step(old(self)@, instruction, 0).post);
                    }
                    Ok(())
                }
            },
            _ => {
                self.pc = rewind2(self.pc);
                proof {
                    assert(self@ =~~= old(self)@);
                }
                Err(ExecError::UnrecognizedInstruction)
            },
        }
    }

    fn se_vx_byte(&mut self, x: u8, k1: u8, k2: u8)
        requires
            old(self).wf(),
            x < 16,
            k1 < 16,
            k2 < 16,
        ensures
            final(self).wf(),
            final(self)@ == (CpuView {
                pc: if old(self)@.v[x as int] == byte2(k1, k2) {
                    wrap16(old(self)@.pc + 2)
                } else {
                    old(self)@.pc
                },
                ..old(self)@
            }),
    {
        if self.v[x as usize] == to_byte(k1, k2) {
            self.pc = wrapping_add16(self.pc, 2);
        }
    }

    fn sne_vx_byte(&mut self, x: u8, k1: u8, k2: u8)
        requires
            old(self).wf(),
            x < 16,
            k1 < 16,
            k2 < 16,
        ensures
            final(self).wf(),
            final(self)@ == (CpuView {
                pc: if old(self)@.v[x as int] != byte2(k1, k2) {
                    wrap16(old(self)@.pc + 2)
                } else {
                    old(self)@.pc
                },
                ..old(self)@
            }),
    {
        if self.v[x as usize] != to_byte(k1, k2) {
            self.pc = wrapping_add16(self.pc, 2);
        }
    }

    fn se_vx_vy(&mut self, x: u8, y: u8)
        requires
            old(self).wf(),
            x < 16,
            y < 16,
        ensures
            final(self).wf(),
            final(self)@ == (CpuView {
                pc: if old(self)@.v[x as int] == old(self)@.v[y as int] {
                    wrap16(old(self)@.pc + 2)
                } else {
                    old(self)@.pc
                },
                ..old(self)@
            }),
    {
        if self.v[x as usize] == self.v[y as usize] {
            self.pc = wrapping_add16(self.pc, 2);
        }
    }

    fn sne_vx_vy(&mut self, x: u8, y: u8)
        requires
            old(self).wf(),
            x < 16,
            y < 16,
        ensures
            final(self).wf(),
            final(self)@ == (CpuView {
                pc: if old(self)@.v[x as int] != old(self)@.v[y as int] {
                    wrap16(old(self)@.pc + 2)
                } else {
                    old(self)@.pc
                },
                ..old(self)@
            }),
    {
        if self.v[x as usize] != self.v[y as usize] {
            self.pc = wrapping_add16(self.pc, 2);
        }
    }

    fn add_vx_vy(&mut self, x: u8, y: u8)
        requires
            old(self).wf(),
            x < 16,
            y < 16,
        ensures
            final(self).wf(),
            final(self)@ == (CpuView {
                v: alu_add_regs(old(self)@.v, x as int, y as int),
                ..old(self)@
            }),
    {
        let vx = self.v[x as usize] as u16;
        let vy = self.v[y as usize] as u16;
        let flag: u8 = if vx + vy > 255 {
            1
        } else {
            0
        };
        self.v.set(15, flag);
        self.v.set(x as usize, ((vx + vy) % 256) as u8);
    }

    fn sub_vx_vy(&mut self, x: u8, y: u8)
        requires
            old(self).wf(),
            x < 16,
            y < 16,
        ensures
            final(self).wf(),
            final(self)@ == (CpuView {
                v: alu_sub_regs(old(self)@.v, x as int, y as int),
                ..old(self)@
            }),
    {
        let vx = self.v[x as usize];
        let vy = self.v[y as usize];
        let flag: u8 = if vx >= vy {
            1
        } else {
            0
        };
        proof {
            lemma_mod256(vx - vy);
        }
        self.v.set(15, flag);
        self.v.set(x as usize, vx.wrapping_sub(vy));
    }

    fn subn_vx_vy(&mut self, x: u8, y: u8)
        requires
            old(self).wf(),
            x < 16,
            y < 16,
        ensures
            final(self).wf(),
            final(self)@ == (CpuView {
                v: alu_subn_regs(old(self)@.v, x as int, y as int),
                ..old(self)@
            }),
    {
        let vx = self.v[x as usize];
        let vy = self.v[y as usize];
        let flag: u8 = if vy >= vx {
            1
        } else {
            0
        };
        proof {
            lemma_mod256(vy - vx);
        }
        self.v.set(15, flag);
        self.v.set(x as usize, vy.wrapping_sub(vx));
    }

    fn shr_vx(&mut self, x: u8)
        requires
            old(self).wf(),
            x < 16,
        ensures
            final(self).wf(),
            final(self)@ == (CpuView { v: alu_shr_regs(old(self)@.v, x as int), ..old(self)@ }),
    {
        let vx = self.v[x as usize];
        self.v.set(15, vx & 1);
        self.v.set(x as usize, vx >> 1u8);
    }

    fn shl_vx(&mut self, x: u8)
        requires
            old(self).wf(),
            x < 16,
        ensures
            final(self).wf(),
            final(self)@ == (CpuView { v: alu_shl_regs(old(self)@.v, x as int), ..old(self)@ }),
    {
        let vx = self.v[x as usize];
        self.v.set(15, vx >> 7u8);
        self.v.set(x as usize, vx << 1u8);
    }

    fn call_addr(&mut self, a: u8, b: u8, c: u8)
        requires
            old(self).wf(),
            old(self)@.sp < 16,
            a < 16,
            b < 16,
            c < 16,
        ensures
            final(self).wf(),
            final(self)@ == (CpuView {
                stack: old(self)@.stack.update(old(self)@.sp as int, old(self)@.pc),
                sp: (old(self)@.sp + 1) as u8,
                pc: addr3(a, b, c),
                ..old(self)@
            }),
    {
        self.stack.set(self.sp as usize, self.pc);
        self.sp += 1;
        self.pc = addr(a, b, c);
    }

    fn ret(&mut self)
        requires
            old(self).wf(),
            old(self)@.sp > 0,
        ensures
            final(self).wf(),
            final(self)@ == (CpuView {
                pc: old(self)@.stack[old(self)@.sp - 1],
                sp: (old(self)@.sp - 1) as u8,
                ..old(self)@
            }),
    {
        self.sp -= 1;
        self.pc = self.stack[self.sp as usize];
    }

    fn ld_b_vx(&mut self, x: u8)
        requires
            old(self).wf(),
            x < 16,
            old(self)@.i + 2 < 4096,
        ensures
            final(self).wf(),
            final(self)@ == (CpuView {
                memory: bcd_mem(old(self)@.memory, old(self)@.i as int, old(self)@.v[x as int]),
                ..old(self)@
            }),
    {
        let vx = self.v[x as usize];
        let i = self.i as usize;
        self.memory.set(i, vx / 100);
        self.memory.set(i + 1, vx % 100 / 10);
        self.memory.set(i + 2, vx % 10);
    }

    fn ld_i_vx(&mut self, x: u8)
        requires
            old(self).wf(),
            x < 16,
            old(self)@.i + x < 4096,
        ensures
            final(self).wf(),
            final(self)@ == (CpuView {
                memory: store_regs_mem(
                    old(self)@.memory,
                    old(self)@.v,
                    old(self)@.i as int,
                    x as int,
                ),
                ..old(self)@
            }),
    {
        let i = self.i as usize;
        let mut j: usize = 0;
        while j < x as usize + 1
            invariant
                old(self).wf(),
                x < 16,
                i == old(self)@.i,
                i + x < 4096,
                j <= x + 1,
                self@ == (CpuView { memory: self@.memory, ..old(self)@ }),
                self@.memory.len() == 4096,
                forall|jj: int|
                    0 <= jj < 4096 && !(i <= jj < i + j) ==> self@.memory[jj] == old(
                        self,
                    )@.memory[jj],
                forall|jj: int| i <= jj < i + j ==> self@.memory[jj] == old(self)@.v[jj - i],
            decreases x + 1 - j,
        {
            let val = self.v[j];
            self.memory.set(i + j, val);
            j += 1;
        }
        proof {
            assert(self@.memory =~= store_regs_mem(
                old(self)@.memory,
                old(self)@.v,
                old(self)@.i as int,
                x as int,
            ));
            assert(self@ =~~= (CpuView {
                memory: store_regs_mem(
                    old(self)@.memory,
                    old(self)@.v,
                    old(self)@.i as int,
                    x as int,
                ),
                ..old(self)@
            }));
        }
    }

    fn ld_vx_i(&mut self, x: u8)
        requires
            old(self).wf(),
            x < 16,
            old(self)@.i + x < 4096,
        ensures
            final(self).wf(),
            final(self)@ == (CpuView {
                v: load_regs(old(self)@.v, old(self)@.memory, old(self)@.i as int, x as int),
                ..old(self)@
            }),
    {
        let i = self.i as usize;
        let mut j: usize = 0;
        while j < x as usize + 1
            invariant
                old(self).wf(),
                x < 16,
                i == old(self)@.i,
                i + x < 4096,
                j <= x + 1,
                self@ == (CpuView { v: self@.v, ..old(self)@ }),
                self@.v.len() == 16,
                forall|jj: int| j <= jj < 16 ==> self@.v[jj] == old(self)@.v[jj],
                forall|jj: int| 0 <= jj < j ==> self@.v[jj] == old(self)@.memory[i + jj],
            decreases x + 1 - j,
        {
            let val = self.memory[i + j];
            self.v.set(j, val);
            j += 1;
        }
        proof {
            assert(self@.v =~= load_regs(
                old(self)@.v,
                old(self)@.memory,
                old(self)@.i as int,
                x as int,
            ));
            assert(self@ =~~= (CpuView {
                v: load_regs(old(self)@.v, old(self)@.memory, old(self)@.i as int, x as int),
                ..old(self)@
            }));
        }
    }
}

/// `ADD Vx, Vy` on any two register values `a = Vx`, `b = Vy`: the carry
/// flag VF becomes 1 exactly when `a + b > 255`, and Vx becomes
/// `(a + b) mod 256`. The destination must not be VF itself, which the flag
/// overwrites.
pub proof fn lemma_alu_add(pre: CpuView, x: u8, y: u8, rb: u8)
    requires
        pre.wf(),
        x < 15,
        y < 16,
    ensures
        ({
            let out = step(pre, (0x8, x, y, 0x4), rb);
            let a = pre.v[x as int];
            let b = pre.v[y as int];
            &&& out.result == Ok::<(), ExecError>(())
            &&& out.post.v[15] == (if a + b > 255 { 1u8 } else { 0u8 })
            &&& out.post.v[x as int] == ((a + b) % 256) as u8
        }),
{
}

/// `SUB Vx, Vy` on any `a = Vx`, `b = Vy`: VF becomes 1 exactly when
/// `a >= b` and Vx becomes `(a - b) mod 256`; `SUBN Vx, Vy` sets VF exactly
/// when `b >= a` and Vx becomes `(b - a) mod 256`. The destination must not
/// be VF itself, which the flag overwrites.
pub proof fn lemma_alu_sub_subn(pre: CpuView, x: u8, y: u8, rb: u8)
    requires
        pre.wf(),
        x < 15,
        y < 16,
    ensures
        ({
            let out = step(pre, (0x8, x, y, 0x5), rb);
            let a = pre.v[x as int];
            let b = pre.v[y as int];
            &&& out.result == Ok::<(), ExecError>(())
            &&& out.post.v[15] == (if a >= b { 1u8 } else { 0u8 })
            &&& out.post.v[x as int] == ((a - b) % 256) as u8
        }),
        ({
            let out = step(pre, (0x8, x, y, 0x7), rb);
            let a = pre.v[x as int];
            let b = pre.v[y as int];
            &&& out.result == Ok::<(), ExecError>(())
            &&& out.post.v[15] == (if b >= a { 1u8 } else { 0u8 })
            &&& out.post.v[x as int] == ((b - a) % 256) as u8
        }),
{
}

/// `SHR Vx` and `SHL Vx` on any `a = Vx`: VF becomes the bit shifted out
/// (the least significant bit for `SHR`, the most significant for `SHL`),
/// and Vx becomes the shifted value. The destination must not be VF itself,
/// which the flag overwrites.
pub proof fn lemma_alu_shifts(pre: CpuView, x: u8, y: u8, rb: u8)
    requires
        pre.wf(),
        x < 15,
        y < 16,
    ensures
        ({
            let out = step(pre, (0x8, x, y, 0x6), rb);
            let a = pre.v[x as int];
            &&& out.result == Ok::<(), ExecError>(())
            &&& out.post.v[15] == a & 1
            &&& out.post.v[x as int] == a >> 1u8
        }),
        ({
            let out = step(pre, (0x8, x, y, 0xE), rb);
            let a = pre.v[x as int];
            &&& out.result == Ok::<(), ExecError>(())
            &&& out.post.v[15] == a >> 7u8
            &&& out.post.v[x as int] == a << 1u8
        }),
{
}

/// `CALL addr` followed by `RET` brings the program counter back to the
/// instruction following the `CALL`, with the stack pointer, registers,
/// memory, index register, timers and terminal state as they were before
/// the `CALL`.
pub proof fn lemma_call_ret_round_trip(pre: CpuView, a: u8, b: u8, c: u8, rb1: u8, rb2: u8)
    requires
        pre.wf(),
        pre.sp < 16,
    ensures
        ({
            let call_out = step(pre, (0x2, a, b, c), rb1);
            let ret_out = step(call_out.post, (0x0, 0x0, 0xE, 0xE), rb2);
            &&& call_out.result == Ok::<(), ExecError>(())
            &&& ret_out.result == Ok::<(), ExecError>(())
            &&& ret_out.post.pc == wrap16(pre.pc + 2)
            &&& ret_out.post.sp == pre.sp
            &&& ret_out.post.v == pre.v
            &&& ret_out.post.memory == pre.memory
            &&& ret_out.post.i == pre.i
            &&& ret_out.post.dt == pre.dt
            &&& ret_out.post.st == pre.st
            &&& ret_out.post.term == pre.term
        }),
{
}

} // verus!
