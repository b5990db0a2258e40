use vstd::prelude::*;
use vstd::string::StringSliceAdditionalSpecFns;

verus! {

/// Physical address of the VGA text buffer.
pub const MMIO: usize = 0xb8000;
/// White on black.
pub const COLOR: u8 = 0x0f;
pub const ROWS: usize = 25;
pub const COLS: usize = 80;
/// Two bytes (character, colour) for each of the `ROWS * COLS` cells.
pub const CELL_BYTES: usize = 4000;

/// Byte offset of the character byte of cell (`row`, `col`) in the text buffer.
pub open spec fn cell_index(row: int, col: int) -> int {
    (row * 80 + col) * 2
}

/// The contents of the VGA text buffer, row by row, two bytes per cell.
pub struct Screen {
    pub Cells: Vec<u8>,
}

impl Screen {
    pub open spec fn wf(&self) -> bool {
        self.Cells@.len() == CELL_BYTES
    }

    /// A buffer whose every byte is zero.
    pub fn new() -> (s: Screen)
        ensures
            s.wf(),
            s.Cells@ == Seq::new(CELL_BYTES as nat, |k: int| 0u8),
    {
        let mut Cells: Vec<u8> = Vec::new();
        let mut k: usize = 0;
        while k < CELL_BYTES
            invariant
                k <= CELL_BYTES,
                Cells@ == Seq::new(k as nat, |j: int| 0u8),
            decreases CELL_BYTES - k,
        {
            Cells.push(0);
            k = k + 1;
        }
        Screen { Cells }
    }
}


/// The state a `Writer` and the text buffer it draws on stand for.
pub struct Console {
    pub row: int,
    pub col: int,
    pub color: u8,
    pub cells: Seq<u8>,
}

/// `cells` with cell (`row`, `col`) set to `character` in colour `color`.
pub open spec fn put_cell(cells: Seq<u8>, row: int, col: int, character: u8, color: u8) -> Seq<u8> {
    cells.update(cell_index(row, col), character).update(cell_index(row, col) + 1, color)
}

/// `cells` with every row moved up by one; the last row keeps its contents.
pub open spec fn scrolled(cells: Seq<u8>) -> Seq<u8> {
    Seq::new(cells.len(), |k: int| if k < 3840 { cells[k + 160] } else { cells[k] })
}

/// `cells` with row `row` filled with blanks in colour `color`.
pub open spec fn cleared_row(cells: Seq<u8>, row: int, color: u8) -> Seq<u8> {
    Seq::new(
        cells.len(),
        |k: int|
            if row * 160 <= k < row * 160 + 160 {
                if k % 2 == 0 { 32u8 } else { color }
            } else {
                cells[k]
            },
    )
}

/// What a line feed does: next row, or scroll and blank the last row at the bottom.
pub open spec fn new_line_model(m: Console) -> Console {
    if m.row < 24 {
        Console { row: m.row + 1, col: 0, ..m }
    } else {
        Console { col: 0, cells: cleared_row(scrolled(m.cells), 24, m.color), ..m }
    }
}

/// What writing one byte does: a line feed, or the byte at the cursor (wrapping first when
/// the row is full) and the cursor one cell further.
pub open spec fn write_byte_model(m: Console, byte: u8) -> Console {
    if byte == 10 {
        new_line_model(m)
    } else {
        let m1 = if m.col >= 80 { new_line_model(m) } else { m };
        Console { col: m1.col + 1, cells: put_cell(m1.cells, m1.row, m1.col, byte, m1.color), ..m1 }
    }
}

/// Printable ASCII and line feeds are written as they are; anything else as the block 0xfe.
pub open spec fn displayed_byte(byte: u8) -> u8 {
    if (0x20 <= byte && byte <= 0x7e) || byte == 10 { byte } else { 0xfe }
}

/// What writing a sequence of bytes does, one after the other.
pub open spec fn write_bytes_model(m: Console, bytes: Seq<u8>) -> Console
    decreases bytes.len(),
{
    if bytes.len() == 0 {
        m
    } else {
        write_byte_model(write_bytes_model(m, bytes.drop_last()), displayed_byte(bytes.last()))
    }
}

/// Writes text to the screen at a cursor that advances and wraps, scrolling at the bottom.
pub struct Writer {
    pub RowPosition: usize,
    pub ColumnPosition: usize,
    pub ColorCode: u8,
}

impl Writer {
    pub open spec fn wf(&self) -> bool {
        self.RowPosition < ROWS
    }

    /// The console that this writer and `screen` stand for.
    pub open spec fn model(&self, screen: &Screen) -> Console {
        Console {
            row: self.RowPosition as int,
            col: self.ColumnPosition as int,
            color: self.ColorCode,
            cells: screen.Cells@,
        }
    }

    /// A writer at the top left corner, white on black.
    pub fn new() -> (w: Self)
        ensures
            w.wf(),
            w.RowPosition == 0,
            w.ColumnPosition == 0,
            w.ColorCode == COLOR,
    {
        Self { RowPosition: 0, ColumnPosition: 0, ColorCode: COLOR }
    }

    /// Address of the character byte of cell (`RowIndex`, `ColIndex`) in the text buffer.
    pub fn cell_ptr(&self, RowIndex: usize, ColIndex: usize) -> (p: usize)
        requires
            MMIO + cell_index(RowIndex as int, ColIndex as int) <= usize::MAX,
        ensures
            p == MMIO + cell_index(RowIndex as int, ColIndex as int),
    {
        let Offset = (RowIndex * COLS + ColIndex) * 2;
        MMIO + Offset
    }

    /// Character byte of cell (`RowIndex`, `ColIndex`).
    pub fn read_character(&self, Screen: &Screen, RowIndex: usize, ColIndex: usize) -> (b: u8)
        requires
            Screen.wf(),
            RowIndex < ROWS,
            ColIndex < COLS,
        ensures
            b == Screen.Cells@[cell_index(RowIndex as int, ColIndex as int)],
    {
        Screen.Cells[(RowIndex * COLS + ColIndex) * 2]
    }

    /// Colour byte of cell (`RowIndex`, `ColIndex`).
    pub fn read_color(&self, Screen: &Screen, RowIndex: usize, ColIndex: usize) -> (b: u8)
        requires
            Screen.wf(),
            RowIndex < ROWS,
            ColIndex < COLS,
        ensures
            b == Screen.Cells@[cell_index(RowIndex as int, ColIndex as int) + 1],
    {
        Screen.Cells[(RowIndex * COLS + ColIndex) * 2 + 1]
    }

    /// Sets cell (`RowIndex`, `ColIndex`) to `Character` in colour `ColorCode`.
    pub fn write_cell(&self, Screen: &mut Screen, RowIndex: usize, ColIndex: usize, Character: u8, ColorCode: u8)
        requires
            old(Screen).wf(),
            RowIndex < ROWS,
            ColIndex < COLS,
        ensures
            final(Screen).wf(),
            final(Screen).Cells@ == put_cell(old(Screen).Cells@, RowIndex as int, ColIndex as int, Character, ColorCode),
    {
        let Index = (RowIndex * COLS + ColIndex) * 2;
        Screen.Cells.set(Index, Character);
        Screen.Cells.set(Index + 1, ColorCode);
    }

    /// Blanks row `RowIndex` in the writer's colour.
    pub fn clear_row(&self, Screen: &mut Screen, RowIndex: usize)
        requires
            old(Screen).wf(),
            RowIndex < ROWS,
        ensures
            final(Screen).wf(),
            final(Screen).Cells@ == cleared_row(old(Screen).Cells@, RowIndex as int, self.ColorCode),
    {
        let ghost start = old(Screen).Cells@;
        let mut ColIndex: usize = 0;
        while ColIndex < COLS
            invariant
                Screen.wf(),
                RowIndex < ROWS,
                ColIndex <= COLS,
                forall|k: int|
                    0 <= k < 4000 ==> #[trigger] Screen.Cells@[k] == if RowIndex * 160 <= k < RowIndex * 160 + ColIndex * 2 {
                        if k % 2 == 0 { 32u8 } else { self.ColorCode }
                    } else {
                        start[k]
                    },
            decreases COLS - ColIndex,
        {
            self.write_cell(Screen, RowIndex, ColIndex, 32u8, self.ColorCode);
            ColIndex = ColIndex + 1;
        }
        assert(Screen.Cells@ =~= cleared_row(start, RowIndex as int, self.ColorCode));
    }

    /// Moves every row up by one; the last row keeps its contents.
    pub fn scroll_up(&self, Screen: &mut Screen)
        requires
            old(Screen).wf(),
        ensures
            final(Screen).wf(),
            final(Screen).Cells@ == scrolled(old(Screen).Cells@),
    {
        let ghost start = old(Screen).Cells@;
        let mut RowIndex: usize = 1;
        while RowIndex < ROWS
            invariant
                Screen.wf(),
                1 <= RowIndex <= ROWS,
                start.len() == 4000,
                forall|k: int|
                    0 <= k < 4000 ==> #[trigger] Screen.Cells@[k] == if k < (RowIndex - 1) * 160 {
                        start[k + 160]
                    } else {
                        start[k]
                    },
            decreases ROWS - RowIndex,
        {
            let mut ColIndex: usize = 0;
            while ColIndex < COLS
                invariant
                    Screen.wf(),
                    1 <= RowIndex < ROWS,
                    ColIndex <= COLS,
                    start.len() == 4000,
                    forall|k: int|
                        0 <= k < 4000 ==> #[trigger] Screen.Cells@[k] == if k < (RowIndex - 1) * 160 + ColIndex * 2 {
                            start[k + 160]
                        } else {
                            start[k]
                        },
                decreases COLS - ColIndex,
            {
                let Character = self.read_character(Screen, RowIndex, ColIndex);
                let ColorCode = self.read_color(Screen, RowIndex, ColIndex);
                self.write_cell(Screen, RowIndex - 1, ColIndex, Character, ColorCode);
                ColIndex = ColIndex + 1;
            }
            RowIndex = RowIndex + 1;
        }
        assert(Screen.Cells@ =~= scrolled(start));
    }

    /// Moves the cursor to the start of the next row, scrolling at the bottom.
    pub fn new_line(&mut self, Screen: &mut Screen)
        requires
            old(self).wf(),
            old(Screen).wf(),
        ensures
            final(self).wf(),
            final(Screen).wf(),
            final(self).ColorCode == old(self).ColorCode,
            final(self).model(final(Screen)) == new_line_model(old(self).model(old(Screen))),
    {
        self.ColumnPosition = 0;
        if self.RowPosition < ROWS - 1 {
            self.RowPosition = self.RowPosition + 1;
        } else {
            self.scroll_up(Screen);
            self.clear_row(Screen, ROWS - 1);
        }
    }

    /// Writes one byte at the cursor: a line feed moves to the next row, anything else is
    /// drawn in the writer's colour (after wrapping when the row is full).
    pub fn write_byte(&mut self, Screen: &mut Screen, Byte: u8)
        requires
            old(self).wf(),
            old(Screen).wf(),
        ensures
            final(self).wf(),
            final(Screen).wf(),
            final(self).ColorCode == old(self).ColorCode,
            final(self).model(final(Screen)) == write_byte_model(old(self).model(old(Screen)), Byte),
    {
        if Byte == 10u8 {
            self.new_line(Screen);
        } else {
            if self.ColumnPosition >= COLS {
                self.new_line(Screen);
            }
            self.write_cell(Screen, self.RowPosition, self.ColumnPosition, Byte, self.ColorCode);
            self.ColumnPosition = self.ColumnPosition + 1;
        }
    }

    /// Writes the bytes one after the other; bytes that are neither printable ASCII nor a
    /// line feed are drawn as the block 0xfe.
    pub fn write_bytes(&mut self, Screen: &mut Screen, Bytes: &[u8])
        requires
            old(self).wf(),
            old(Screen).wf(),
        ensures
            final(self).wf(),
            final(Screen).wf(),
            final(self).ColorCode == old(self).ColorCode,
            final(self).model(final(Screen)) == write_bytes_model(old(self).model(old(Screen)), Bytes@),
    {
        let ghost start = self.model(Screen);
        let mut Index: usize = 0;
        while Index < Bytes.len()
            invariant
                self.wf(),
                Screen.wf(),
                Index <= Bytes@.len(),
                self.ColorCode == old(self).ColorCode,
                self.model(Screen) == write_bytes_model(start, Bytes@.subrange(0, Index as int)),
            decreases Bytes@.len() - Index,
        {
            let Byte = Bytes[Index];
            if (0x20u8 <= Byte && Byte <= 0x7eu8) || Byte == 10u8 {
                self.write_byte(Screen, Byte);
            } else {
                self.write_byte(Screen, 0xfeu8);
            }
            assert(Bytes@.subrange(0, Index + 1).drop_last() =~= Bytes@.subrange(0, Index as int));
            Index = Index + 1;
        }
        assert(Bytes@.subrange(0, Bytes@.len() as int) =~= Bytes@);
    }

    /// Writes the UTF-8 bytes of `Text` as `write_bytes` does.
    pub fn write_string(&mut self, Screen: &mut Screen, Text: &str)
        requires
            old(self).wf(),
            old(Screen).wf(),
        ensures
            final(self).wf(),
            final(Screen).wf(),
            final(self).ColorCode == old(self).ColorCode,
            final(self).model(final(Screen)) == write_bytes_model(old(self).model(old(Screen)), Text.spec_bytes()),
    {
        self.write_bytes(Screen, Text.as_bytes());
    }
}


/// Every cell blank in colour `color`.
pub open spec fn blank_cells(color: u8) -> Seq<u8> {
    Seq::new(4000, |k: int| if k % 2 == 0 { 32u8 } else { color })
}

/// What `WriteAt` does: the text drawn from (`row`, `col`), the cursor left where it was.
pub open spec fn write_at_model(m: Console, row: int, col: int, bytes: Seq<u8>) -> Console {
    Console {
        cells: write_bytes_model(Console { row: row, col: col, ..m }, bytes).cells,
        ..m
    }
}

/// Blanks the whole screen in the writer's colour and moves the cursor to the top left.
pub fn ClearScreen(Writer: &mut Writer, Screen: &mut Screen)
    requires
        old(Writer).wf(),
        old(Screen).wf(),
    ensures
        final(Writer).wf(),
        final(Screen).wf(),
        final(Writer).RowPosition == 0,
        final(Writer).ColumnPosition == 0,
        final(Writer).ColorCode == old(Writer).ColorCode,
        final(Screen).Cells@ == blank_cells(old(Writer).ColorCode),
{
    let ghost start = Screen.Cells@;
    let mut RowIndex: usize = 0;
    while RowIndex < ROWS
        invariant
            Writer.wf(),
            Screen.wf(),
            RowIndex <= ROWS,
            Writer.ColorCode == old(Writer).ColorCode,
            forall|k: int|
                0 <= k < 4000 ==> #[trigger] Screen.Cells@[k] == if k < RowIndex * 160 {
                    if k % 2 == 0 { 32u8 } else { Writer.ColorCode }
                } else {
                    start[k]
                },
        decreases ROWS - RowIndex,
    {
        Writer.clear_row(Screen, RowIndex);
        RowIndex = RowIndex + 1;
    }
    Writer.RowPosition = 0;
    Writer.ColumnPosition = 0;
    assert(Screen.Cells@ =~= blank_cells(Writer.ColorCode));
}

/// Writes `Bytes` starting at (`Row`, `Col`) and leaves the writer's cursor where it was.
pub fn WriteBytesAt(Writer: &mut Writer, Screen: &mut Screen, Row: usize, Col: usize, Bytes: &[u8])
    requires
        old(Writer).wf(),
        old(Screen).wf(),
        Row < ROWS,
    ensures
        final(Writer).wf(),
        final(Screen).wf(),
        final(Writer).RowPosition == old(Writer).RowPosition,
        final(Writer).ColumnPosition == old(Writer).ColumnPosition,
        final(Writer).ColorCode == old(Writer).ColorCode,
        final(Writer).model(final(Screen)) == write_at_model(
            old(Writer).model(old(Screen)),
            Row as int,
            Col as int,
            Bytes@,
        ),
{
    let ghost m = Writer.model(Screen);
    let OriginalRow = Writer.RowPosition;
    let OriginalCol = Writer.ColumnPosition;
    Writer.RowPosition = Row;
    Writer.ColumnPosition = Col;
    assert(Writer.model(Screen) == Console { row: Row as int, col: Col as int, ..m });
    Writer.write_bytes(Screen, Bytes);
    Writer.RowPosition = OriginalRow;
    Writer.ColumnPosition = OriginalCol;
}

/// Writes `Text` starting at (`Row`, `Col`) and leaves the writer's cursor where it was.
pub fn WriteAt(Writer: &mut Writer, Screen: &mut Screen, Row: usize, Col: usize, Text: &str)
    requires
        old(Writer).wf(),
        old(Screen).wf(),
        Row < ROWS,
    ensures
        final(Writer).wf(),
        final(Screen).wf(),
        final(Writer).RowPosition == old(Writer).RowPosition,
        final(Writer).ColumnPosition == old(Writer).ColumnPosition,
        final(Writer).ColorCode == old(Writer).ColorCode,
        final(Writer).model(final(Screen)) == write_at_model(
            old(Writer).model(old(Screen)),
            Row as int,
            Col as int,
            Text.spec_bytes(),
        ),
{
    WriteBytesAt(Writer, Screen, Row, Col, Text.as_bytes());
}

/// Sets cell (`Row`, `Col`) to `Byte` in white on black.
pub fn WriteByteAt(Writer: &Writer, Screen: &mut Screen, Row: usize, Col: usize, Byte: u8)
    requires
        old(Screen).wf(),
        Row < ROWS,
        Col < COLS,
    ensures
        final(Screen).wf(),
        final(Screen).Cells@ == put_cell(old(Screen).Cells@, Row as int, Col as int, Byte, COLOR),
{
    Writer.write_cell(Screen, Row, Col, Byte, COLOR);
}

/// The values for the cursor location registers of the VGA controller.
#[derive(Clone, Copy, Debug, PartialEq, Eq, Structural)]
pub struct CursorRegisters {
    /// Sent to register 0x0F.
    pub Low: u8,
    /// Sent to register 0x0E.
    pub High: u8,
}

/// The cell number `row * COLS + col` cut to 16 bits, split into its low and high byte.
pub open spec fn cursor_registers(row: int, col: int) -> CursorRegisters {
    CursorRegisters {
        Low: ((row * 80 + col) % 65536 % 256) as u8,
        High: ((row * 80 + col) % 65536 / 256) as u8,
    }
}

/// The register values that put the hardware cursor at (`Row`, `Col`): the cell number
/// `Row * COLS + Col`, cut to 16 bits, split into its low and high byte.
pub fn SetCursorPosition(Row: usize, Col: usize) -> (r: CursorRegisters)
    requires
        Row * 80 + Col <= usize::MAX,
    ensures
        r == cursor_registers(Row as int, Col as int),
{
    let Cell: usize = Row * COLS + Col;
    let Position: u16 = #[verifier::truncate] (Cell as u16);
    let Low: u8 = #[verifier::truncate] ((Position & 0x00FFu16) as u8);
    let High: u8 = #[verifier::truncate] ((Position >> 8u16) as u8);
    assert(Position == Cell % 65536) by (bit_vector)
        requires
            Position == #[verifier::truncate] (Cell as u16),
    ;
    assert(Low == Position % 256 && High == Position / 256) by (bit_vector)
        requires
            Low == (Position & 0x00FFu16) as u8,
            High == (Position >> 8u16) as u8,
    ;
    CursorRegisters { Low, High }
}

/// Puts the writer's cursor at (`Row`, `Col`); the hardware cursor goes there too with the
/// registers that this returns.
pub fn SetWriterPosition(Writer: &mut Writer, Row: usize, Col: usize) -> (r: CursorRegisters)
    requires
        Row < ROWS,
        Row * 80 + Col <= usize::MAX,
    ensures
        final(Writer).wf(),
        final(Writer).RowPosition == Row,
        final(Writer).ColumnPosition == Col,
        final(Writer).ColorCode == old(Writer).ColorCode,
        r == cursor_registers(Row as int, Col as int),
{
    Writer.RowPosition = Row;
    Writer.ColumnPosition = Col;
    SetCursorPosition(Row, Col)
}

/// Every colour byte of `cells` is `color`.
pub open spec fn colour_uniform(cells: Seq<u8>, color: u8) -> bool {
    cells.len() == 4000 && forall|k: int| 0 <= k < 4000 && k % 2 == 1 ==> #[trigger] cells[k] == color
}

proof fn lemma_byte_keeps_colour(m: Console, byte: u8)
    requires
        0 <= m.row < 25,
        0 <= m.col,
        colour_uniform(m.cells, m.color),
    ensures
        0 <= write_byte_model(m, byte).row < 25,
        0 <= write_byte_model(m, byte).col,
        write_byte_model(m, byte).color == m.color,
        colour_uniform(write_byte_model(m, byte).cells, m.color),
{
    let n = new_line_model(m);
    assert(colour_uniform(n.cells, m.color)) by {
        if m.row >= 24 {
            let sc = scrolled(m.cells);
            assert forall|k: int| 0 <= k < 4000 && k % 2 == 1 implies #[trigger] n.cells[k] == m.color by {
                if k < 3840 {
                    assert(sc[k] == m.cells[k + 160]);
                }
            }
        }
    }
    if byte != 10 {
        let m1 = if m.col >= 80 { n } else { m };
        let i = cell_index(m1.row, m1.col);
        assert(0 <= i && i + 1 < 4000);
        let after = put_cell(m1.cells, m1.row, m1.col, byte, m1.color);
        assert forall|k: int| 0 <= k < 4000 && k % 2 == 1 implies #[trigger] after[k] == m.color by {
            assert(i % 2 == 0);
        }
    }
}

/// Colours are kept: when every cell has the writer's colour, writing any bytes (wrapping
/// and scrolling included) leaves every cell in that colour.
pub proof fn law_colour_kept(m: Console, bytes: Seq<u8>)
    requires
        0 <= m.row < 25,
        0 <= m.col,
        colour_uniform(m.cells, m.color),
    ensures
        0 <= write_bytes_model(m, bytes).row < 25,
        0 <= write_bytes_model(m, bytes).col,
        write_bytes_model(m, bytes).color == m.color,
        colour_uniform(write_bytes_model(m, bytes).cells, m.color),
    decreases bytes.len(),
{
    if bytes.len() > 0 {
        law_colour_kept(m, bytes.drop_last());
        lemma_byte_keeps_colour(write_bytes_model(m, bytes.drop_last()), displayed_byte(bytes.last()));
    }
}

/// A line feed moves the cursor to the start of the next row, and at the bottom row moves
/// every row up one and blanks the last row instead; it writes no character.
pub proof fn law_line_feed(m: Console)
    requires
        0 <= m.row < 25,
        m.cells.len() == 4000,
    ensures
        ({
            let r = write_byte_model(m, 10u8);
            &&& r.col == 0
            &&& r.color == m.color
            &&& r.cells.len() == 4000
            &&& m.row < 24 ==> r.row == m.row + 1 && r.cells == m.cells
            &&& m.row == 24 ==> {
                &&& r.row == 24
                &&& forall|k: int| 0 <= k < 3840 ==> #[trigger] r.cells[k] == m.cells[k + 160]
                &&& forall|c: int| 0 <= c < 80 ==> r.cells[#[trigger] cell_index(24, c)] == 32u8
                    && r.cells[cell_index(24, c) + 1] == m.color
            }
        }),
{
    if m.row == 24 {
        let r = write_byte_model(m, 10u8);
        assert forall|c: int| 0 <= c < 80 implies r.cells[#[trigger] cell_index(24, c)] == 32u8
            && r.cells[cell_index(24, c) + 1] == m.color by {
            assert(cell_index(24, c) == 3840 + 2 * c);
        }
    }
}

/// Any other byte is written at the cursor in the writer's colour and the cursor moves one
/// cell right, touching no other cell; when the row is already full the cursor first goes
/// to the start of the next row (scrolling at the bottom) and the byte lands there.
pub proof fn law_byte_at_cursor(m: Console, b: u8)
    requires
        b != 10u8,
        0 <= m.row < 25,
        0 <= m.col <= 80,
        m.cells.len() == 4000,
    ensures
        ({
            let r = write_byte_model(m, b);
            let at = if m.col < 80 { m } else { write_byte_model(m, 10u8) };
            &&& r.row == at.row
            &&& r.col == at.col + 1
            &&& at.col == (if m.col < 80 { m.col } else { 0 })
            &&& r.color == m.color
            &&& r.cells.len() == 4000
            &&& r.cells[cell_index(r.row, at.col)] == b
            &&& r.cells[cell_index(r.row, at.col) + 1] == m.color
            &&& forall|k: int| 0 <= k < 4000 && k != cell_index(r.row, at.col) && k != cell_index(r.row, at.col) + 1
                ==> #[trigger] r.cells[k] == at.cells[k]
        }),
{
}

} // verus!
