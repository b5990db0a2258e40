use vstd::prelude::*;
use crate::clock::{ClockState, HandleKey, IsInitialized, handle_key_post};
use crate::text::push_char;
use crate::vga::{CursorRegisters, Screen, Writer, write_bytes_model};

verus! {

/// First interrupt vector of the primary PIC.
pub const PIC_1_OFFSET: u8 = 32;
/// First interrupt vector of the secondary PIC.
pub const PIC_2_OFFSET: u8 = 40;

/// The hardware interrupts that the kernel handles, in vector order from `PIC_1_OFFSET`.
#[derive(Clone, Copy, Debug, PartialEq, Eq, Structural)]
pub enum InterruptIndex {
    Timer,
    Keyboard,
}

impl InterruptIndex {
    /// The vector number.
    pub open spec fn vector(self) -> u8 {
        match self {
            InterruptIndex::Timer => PIC_1_OFFSET,
            InterruptIndex::Keyboard => (PIC_1_OFFSET + 1) as u8,
        }
    }

    /// The vector number.
    pub fn AsU8(self) -> (v: u8)
        ensures
            v == self.vector(),
    {
        match self {
            InterruptIndex::Timer => PIC_1_OFFSET,
            InterruptIndex::Keyboard => PIC_1_OFFSET + 1,
        }
    }

    /// The vector number, as an index into the descriptor table.
    pub fn AsUsize(self) -> (v: usize)
        ensures
            v == self.vector(),
    {
        self.AsU8() as usize
    }
}

/// What the keyboard interrupt does with a typed character: echo it once the clock runs,
/// feed it to the clock's time entry before. Returns the cursor registers to send.
pub fn HandleTypedKey(
    Clock: &mut ClockState,
    Writer: &mut Writer,
    Screen: &mut Screen,
    Key: Option<char>,
    CurrentTick: u64,
) -> (r: Vec<CursorRegisters>)
    requires
        old(Clock).wf(),
        old(Writer).wf(),
        old(Screen).wf(),
    ensures
        final(Clock).wf(),
        final(Writer).wf(),
        final(Screen).wf(),
        Key is None ==> *final(Clock) == *old(Clock)
            && final(Writer).model(final(Screen)) == old(Writer).model(old(Screen)) && r@.len() == 0,
        (Key is Some && old(Clock).IsInitialized) ==> {
            &&& *final(Clock) == *old(Clock)
            &&& final(Writer).model(final(Screen)) == write_bytes_model(
                old(Writer).model(old(Screen)),
                vstd::utf8::encode_utf8(seq![Key.unwrap()]),
            )
            &&& r@.len() == 0
        },
        (Key is Some && !old(Clock).IsInitialized) ==> handle_key_post(
            *old(Clock),
            *final(Clock),
            old(Writer).model(old(Screen)),
            final(Writer).model(final(Screen)),
            Key.unwrap(),
            CurrentTick,
            r@,
        ),
{
    match Key {
        Some(Character) => {
            if IsInitialized(Clock) {
                let mut Text = String::new();
                push_char(&mut Text, Character);
                Writer.write_string(Screen, Text.as_str());
                Vec::new()
            } else {
                HandleKey(Clock, Writer, Screen, Character, CurrentTick)
            }
        },
        None => Vec::new(),
    }
}

} // verus!
