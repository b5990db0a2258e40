use osirs::vga::{ClearScreen, Screen, SetCursorPosition, SetWriterPosition, WriteAt, WriteByteAt, Writer, COLOR};

fn cell(screen: &Screen, row: usize, col: usize) -> (u8, u8) {
    let i = (row * 80 + col) * 2;
    (screen.Cells[i], screen.Cells[i + 1])
}

fn row_text(screen: &Screen, row: usize, from: usize, len: usize) -> String {
    (from..from + len).map(|c| cell(screen, row, c).0 as char).collect()
}

#[test]
fn writer_starts_top_left_white_on_black() {
    let w = Writer::new();
    assert_eq!(w.RowPosition, 0);
    assert_eq!(w.ColumnPosition, 0);
    assert_eq!(w.ColorCode, 0x0f);
}

#[test]
fn write_string_draws_bytes_in_colour() {
    let mut w = Writer::new();
    let mut s = Screen::new();
    w.write_string(&mut s, "Hi");
    assert_eq!(cell(&s, 0, 0), (b'H', COLOR));
    assert_eq!(cell(&s, 0, 1), (b'i', COLOR));
    assert_eq!(w.ColumnPosition, 2);
}

#[test]
fn non_ascii_bytes_are_drawn_as_blocks() {
    let mut w = Writer::new();
    let mut s = Screen::new();
    w.write_string(&mut s, "é");
    assert_eq!(cell(&s, 0, 0).0, 0xfe);
    assert_eq!(cell(&s, 0, 1).0, 0xfe);
    assert_eq!(w.ColumnPosition, 2);
}

#[test]
fn line_feed_moves_to_next_row() {
    let mut w = Writer::new();
    let mut s = Screen::new();
    w.write_string(&mut s, "a\nb");
    assert_eq!(w.RowPosition, 1);
    assert_eq!(w.ColumnPosition, 1);
    assert_eq!(cell(&s, 1, 0).0, b'b');
}

#[test]
fn full_row_wraps() {
    let mut w = Writer::new();
    let mut s = Screen::new();
    let text: String = std::iter::repeat('x').take(81).collect();
    w.write_string(&mut s, &text);
    assert_eq!(w.RowPosition, 1);
    assert_eq!(w.ColumnPosition, 1);
    assert_eq!(cell(&s, 1, 0).0, b'x');
}

#[test]
fn line_feed_on_last_row_scrolls() {
    let mut w = Writer::new();
    let mut s = Screen::new();
    w.write_string(&mut s, "top\nsecond");
    for _ in 0..23 {
        w.write_string(&mut s, "\n");
    }
    assert_eq!(w.RowPosition, 24);
    w.write_string(&mut s, "\n");
    assert_eq!(w.RowPosition, 24);
    assert_eq!(w.ColumnPosition, 0);
    assert_eq!(row_text(&s, 0, 0, 6), "second");
    assert_eq!(cell(&s, 24, 0), (b' ', COLOR));
}

#[test]
fn write_at_keeps_the_cursor() {
    let mut w = Writer::new();
    let mut s = Screen::new();
    w.write_string(&mut s, "ab");
    WriteAt(&mut w, &mut s, 3, 10, "hello");
    assert_eq!(w.RowPosition, 0);
    assert_eq!(w.ColumnPosition, 2);
    assert_eq!(row_text(&s, 3, 10, 5), "hello");
}

#[test]
fn clear_screen_blanks_everything() {
    let mut w = Writer::new();
    let mut s = Screen::new();
    w.write_string(&mut s, "abc\ndef");
    ClearScreen(&mut w, &mut s);
    assert_eq!((w.RowPosition, w.ColumnPosition), (0, 0));
    for k in 0..4000 {
        assert_eq!(s.Cells[k], if k % 2 == 0 { b' ' } else { COLOR });
    }
}

#[test]
fn write_byte_at_uses_white_on_black() {
    let mut w = Writer::new();
    w.ColorCode = 0x1e;
    let mut s = Screen::new();
    WriteByteAt(&w, &mut s, 2, 3, b'Z');
    assert_eq!(cell(&s, 2, 3), (b'Z', 0x0f));
}

#[test]
fn cursor_registers_split_the_cell_number() {
    let r = SetCursorPosition(1, 0);
    assert_eq!((r.Low, r.High), (80, 0));
    let r = SetCursorPosition(24, 79);
    assert_eq!((r.Low, r.High), (0xCF, 0x07));
}

#[test]
fn set_writer_position_moves_both_cursors() {
    let mut w = Writer::new();
    let r = SetWriterPosition(&mut w, 1, 0);
    assert_eq!((w.RowPosition, w.ColumnPosition), (1, 0));
    assert_eq!((r.Low, r.High), (80, 0));
}

#[test]
fn cell_address_is_in_the_text_buffer() {
    let w = Writer::new();
    assert_eq!(w.cell_ptr(0, 0), 0xb8000);
    assert_eq!(w.cell_ptr(1, 2), 0xb8000 + 164);
}

#[test]
fn read_back_character_and_colour() {
    let w = Writer::new();
    let mut s = Screen::new();
    w.write_cell(&mut s, 5, 6, b'q', 0x4f);
    assert_eq!(w.read_character(&s, 5, 6), b'q');
    assert_eq!(w.read_color(&s, 5, 6), 0x4f);
}

#[test]
fn PrintlnWrapsToNextLine() {
    let mut w = Writer::new();
    let mut s = Screen::new();
    w.write_string(&mut s, &format!("{:081x}\n", 1));
    w.write_string(&mut s, &format!("{:x}\n", 2));
    assert_eq!(row_text(&s, 0, 0, 80), "0".repeat(80));
    assert_eq!(cell(&s, 1, 0).0, b'1');
    assert_eq!(cell(&s, 2, 0).0, b'2');
    assert_eq!((w.RowPosition, w.ColumnPosition), (3, 0));
}

#[test]
fn PrintlnScrollsAndKeepsColor() {
    let mut w = Writer::new();
    let mut s = Screen::new();
    ClearScreen(&mut w, &mut s);
    for LineIndex in 0..30 {
        w.write_string(&mut s, &format!("Line {}\n", LineIndex));
    }
    assert_eq!(w.RowPosition, 24);
    assert_eq!(row_text(&s, 0, 0, 6), "Line 6");
    assert_eq!(row_text(&s, 23, 0, 7), "Line 29");
    for k in (1..4000).step_by(2) {
        assert_eq!(s.Cells[k], COLOR);
    }
}
