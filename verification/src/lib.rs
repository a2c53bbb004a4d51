//! A verified interpreter for the classic 35-opcode 8-bit byte-code machine,
//! together with its monochrome 64x32 framebuffer and hexadecimal keypad input.

pub mod cpu;
pub mod terminal;

