#![allow(non_snake_case)]
#![allow(non_upper_case_globals)]

pub mod bus;
pub mod clock;
pub mod colors;
pub mod interrupts;
pub mod linear_vga;
pub mod memory;
pub mod snake;
pub mod text;
pub mod vga;
pub mod wc;
