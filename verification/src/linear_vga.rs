use vstd::prelude::*;
use vstd::string::StringSliceAdditionalSpecFns;
use crate::vga::{Screen, COLOR};

verus! {

/// Cells in a row of the screen.
pub const ROWS: usize = 80;
/// Rows on the screen.
pub const COLS: usize = 25;
/// Cells on the screen.
pub const MAX: usize = 2000;

/// A console that fills the screen cell after cell: `Latest` is the next cell to write.
pub struct LinearWriter {
    pub Latest: usize,
}

/// The cell a linear console writes next, and the text buffer.
pub struct LinearModel {
    pub latest: int,
    pub cells: Seq<u8>,
}

impl LinearWriter {
    pub open spec fn wf(&self) -> bool {
        self.Latest <= MAX
    }

    pub open spec fn model(&self, screen: &Screen) -> LinearModel {
        LinearModel { latest: self.Latest as int, cells: screen.Cells@ }
    }

    /// A console at the first cell.
    pub fn new() -> (w: Self)
        ensures
            w.wf(),
            w.Latest == 0,
    {
        LinearWriter { Latest: 0 }
    }
}

/// The screen moved up a row: each cell takes the character of the cell below in white on
/// black, the last row is blank.
pub open spec fn scrolled_cells(cells: Seq<u8>) -> Seq<u8> {
    Seq::new(
        cells.len(),
        |k: int|
            if k % 2 == 1 {
                COLOR
            } else if k < 3840 {
                cells[k + 160]
            } else {
                32u8
            },
    )
}

/// What `scroll` does.
pub open spec fn scroll_model(m: LinearModel) -> LinearModel {
    LinearModel { latest: if m.latest >= 80 { m.latest - 80 } else { 0 }, cells: scrolled_cells(m.cells) }
}

/// What `char_to_vga` does: scroll when the screen is full, then the byte at the next cell.
pub open spec fn char_model(m: LinearModel, a: u8) -> LinearModel {
    let m1 = if m.latest >= 2000 { scroll_model(m) } else { m };
    LinearModel {
        latest: m1.latest + 1,
        cells: m1.cells.update(2 * m1.latest, a).update(2 * m1.latest + 1, COLOR),
    }
}

/// What one byte of `str_to_vga` does: scroll when the screen is full, then a line feed
/// moves to the start of the next row and any other byte is written.
pub open spec fn byte_model(m: LinearModel, b: u8) -> LinearModel {
    let m1 = if m.latest >= 2000 { scroll_model(m) } else { m };
    if b == 10 {
        LinearModel { latest: (m1.latest / 80 + 1) * 80, ..m1 }
    } else {
        char_model(m1, b)
    }
}

/// What `str_to_vga` does with `bytes`, one after the other.
pub open spec fn bytes_model(m: LinearModel, bytes: Seq<u8>) -> LinearModel
    decreases bytes.len(),
{
    if bytes.len() == 0 {
        m
    } else {
        byte_model(bytes_model(m, bytes.drop_last()), bytes.last())
    }
}

/// Moves the screen up a row and the next cell up with it.
pub fn scroll(Writer: &mut LinearWriter, Screen: &mut Screen)
    requires
        old(Screen).wf(),
    ensures
        final(Screen).wf(),
        final(Writer).model(final(Screen)) == scroll_model(old(Writer).model(old(Screen))),
{
    let ghost start = Screen.Cells@;
    let mut Index: usize = ROWS;
    while Index < MAX
        invariant
            Screen.wf(),
            80 <= Index <= 2000,
            start.len() == 4000,
            forall|k: int|
                0 <= k < 4000 ==> #[trigger] Screen.Cells@[k] == if k < 2 * (Index - 80) {
                    if k % 2 == 1 { COLOR } else { start[k + 160] }
                } else {
                    start[k]
                },
        decreases 2000 - Index,
    {
        let Character = Screen.Cells[Index * 2];
        Screen.Cells.set((Index - ROWS) * 2, Character);
        Screen.Cells.set((Index - ROWS) * 2 + 1, COLOR);
        Index = Index + 1;
    }
    let mut Index: usize = MAX - ROWS;
    while Index < MAX
        invariant
            Screen.wf(),
            1920 <= Index <= 2000,
            start.len() == 4000,
            forall|k: int|
                0 <= k < 4000 ==> #[trigger] Screen.Cells@[k] == if k < 3840 {
                    if k % 2 == 1 { COLOR } else { start[k + 160] }
                } else if k < 2 * Index {
                    if k % 2 == 1 { COLOR } else { 32u8 }
                } else {
                    start[k]
                },
        decreases 2000 - Index,
    {
        Screen.Cells.set(Index * 2, 32u8);
        Screen.Cells.set(Index * 2 + 1, COLOR);
        Index = Index + 1;
    }
    if Writer.Latest >= ROWS {
        Writer.Latest = Writer.Latest - ROWS;
    } else {
        Writer.Latest = 0;
    }
    assert(Screen.Cells@ =~= scrolled_cells(start));
}

/// Writes byte `a` at the next cell, scrolling first when the screen is full.
pub fn char_to_vga(Writer: &mut LinearWriter, Screen: &mut Screen, a: u8)
    requires
        old(Writer).wf(),
        old(Screen).wf(),
    ensures
        final(Writer).wf(),
        final(Screen).wf(),
        final(Writer).model(final(Screen)) == char_model(old(Writer).model(old(Screen)), a),
{
    if Writer.Latest >= MAX {
        scroll(Writer, Screen);
    }
    Screen.Cells.set(Writer.Latest * 2, a);
    Screen.Cells.set(Writer.Latest * 2 + 1, COLOR);
    Writer.Latest = Writer.Latest + 1;
}

/// Writes the bytes of `s`: a line feed moves to the start of the next row, any other byte
/// goes to the next cell; the screen scrolls when full.
pub fn str_to_vga(Writer: &mut LinearWriter, Screen: &mut Screen, s: &str)
    requires
        old(Writer).wf(),
        old(Screen).wf(),
    ensures
        final(Writer).wf(),
        final(Screen).wf(),
        final(Writer).model(final(Screen)) == bytes_model(old(Writer).model(old(Screen)), s.spec_bytes()),
{
    let bytes = s.as_bytes();
    let ghost start = Writer.model(Screen);
    let mut i: usize = 0;
    while i < bytes.len()
        invariant
            Writer.wf(),
            Screen.wf(),
            i <= bytes@.len(),
            Writer.model(Screen) == bytes_model(start, bytes@.subrange(0, i as int)),
        decreases bytes@.len() - i,
    {
        if Writer.Latest >= MAX {
            scroll(Writer, Screen);
        }
        if bytes[i] == 10u8 {
            Writer.Latest = (Writer.Latest / ROWS + 1) * ROWS;
        } else {
            char_to_vga(Writer, Screen, bytes[i]);
        }
        assert(bytes@.subrange(0, i + 1).drop_last() =~= bytes@.subrange(0, i as int));
        i = i + 1;
    }
    assert(bytes@.subrange(0, bytes@.len() as int) =~= bytes@);
}

/// A formatter target that writes to the linear console.
pub struct Dummy {}

impl Dummy {
    /// Writes `Text` as `str_to_vga` does.
    pub fn write_str(&mut self, Writer: &mut LinearWriter, Screen: &mut Screen, Text: &str)
        requires
            old(Writer).wf(),
            old(Screen).wf(),
        ensures
            final(Writer).wf(),
            final(Screen).wf(),
            final(Writer).model(final(Screen)) == bytes_model(old(Writer).model(old(Screen)), Text.spec_bytes()),
    {
        str_to_vga(Writer, Screen, Text);
    }
}

/// A line feed always moves to the start of the following row, also from the start of a
/// row (an empty line stays empty), and writes nothing; on a full screen it scrolls first
/// and then starts the new last row.
pub proof fn law_line_feed_starts_next_row(m: LinearModel, bytes: Seq<u8>)
    requires
        0 <= bytes_model(m, bytes).latest <= 2000,
    ensures
        ({
            let before = bytes_model(m, bytes);
            let after = bytes_model(m, bytes.push(10u8));
            &&& after.latest % 80 == 0
            &&& before.latest < 2000 ==> before.latest < after.latest <= before.latest + 80
                && after.cells == before.cells
            &&& before.latest == 2000 ==> after.latest == 2000 && after.cells == scrolled_cells(before.cells)
        }),
{
    assert(bytes.push(10u8).drop_last() =~= bytes);
}

/// Any other byte goes into the next cell, in white on black, and the next cell moves one
/// on; no other cell changes. On a full screen the screen scrolls first and the byte starts
/// the new last row.
pub proof fn law_byte_fills_next_cell(m: LinearModel, bytes: Seq<u8>, b: u8)
    requires
        b != 10u8,
        0 <= bytes_model(m, bytes).latest <= 2000,
        bytes_model(m, bytes).cells.len() == 4000,
    ensures
        ({
            let before = bytes_model(m, bytes);
            let after = bytes_model(m, bytes.push(b));
            let at = if before.latest == 2000 { 1920 } else { before.latest };
            let base = if before.latest == 2000 { scrolled_cells(before.cells) } else { before.cells };
            &&& after.latest == at + 1
            &&& after.cells.len() == 4000
            &&& after.cells[2 * at] == b
            &&& after.cells[2 * at + 1] == COLOR
            &&& forall|k: int| 0 <= k < 4000 && k != 2 * at && k != 2 * at + 1 ==> #[trigger] after.cells[k] == base[k]
        }),
{
    assert(bytes.push(b).drop_last() =~= bytes);
}

} // verus!
