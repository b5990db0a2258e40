use osirs::clock::{
    AdvanceOneSecond, ClockState, FormatTime, HandleKey, InputDisplay, IsInitialized, PrintPrompt, Update,
};
use osirs::vga::{Screen, Writer};

fn row_text(screen: &Screen, row: usize, from: usize, len: usize) -> String {
    (from..from + len).map(|c| screen.Cells[(row * 80 + c) * 2] as char).collect()
}

fn type_digits(clock: &mut ClockState, w: &mut Writer, s: &mut Screen, digits: &str, tick: u64) {
    for c in digits.chars() {
        HandleKey(clock, w, s, c, tick);
    }
}

#[test]
fn new_clock_is_not_set() {
    let c = ClockState::New();
    assert!(!IsInitialized(&c));
    assert_eq!(c.InputLength, 0);
}

#[test]
fn prompt_shows_placeholder_and_cursor() {
    let c = ClockState::New();
    let mut w = Writer::new();
    let mut s = Screen::new();
    let r = PrintPrompt(&c, &mut w, &mut s);
    assert_eq!(row_text(&s, 0, 0, 37), "Enter Initial Time (HHMMSS): HH:MM:SS");
    assert_eq!((r.Low, r.High), (29, 0));
}

#[test]
fn digits_fill_the_placeholder() {
    let mut c = ClockState::New();
    let mut w = Writer::new();
    let mut s = Screen::new();
    PrintPrompt(&c, &mut w, &mut s);
    type_digits(&mut c, &mut w, &mut s, "123", 0);
    assert_eq!(row_text(&s, 0, 29, 8), "12:3M:SS");
    assert_eq!(InputDisplay(&c), *b"12:3M:SS");
    assert_eq!(c.InputLength, 3);
}

#[test]
fn non_digit_changes_nothing() {
    let mut c = ClockState::New();
    let mut w = Writer::new();
    let mut s = Screen::new();
    let r = HandleKey(&mut c, &mut w, &mut s, 'x', 0);
    assert!(r.is_empty());
    assert_eq!(c.InputLength, 0);
}

#[test]
fn six_valid_digits_set_the_clock() {
    let mut c = ClockState::New();
    let mut w = Writer::new();
    let mut s = Screen::new();
    PrintPrompt(&c, &mut w, &mut s);
    type_digits(&mut c, &mut w, &mut s, "12345", 0);
    let r = HandleKey(&mut c, &mut w, &mut s, '6', 100);
    assert!(IsInitialized(&c));
    assert_eq!((c.Hours, c.Minutes, c.Seconds), (12, 34, 56));
    assert_eq!(c.LastSecondTick, 100);
    assert_eq!(row_text(&s, 0, 0, 8), "12:34:56");
    assert_eq!(row_text(&s, 0, 8, 30), " ".repeat(30));
    assert_eq!(r.len(), 2);
    assert_eq!((r[1].Low, r[1].High), (80, 0));
    assert_eq!((w.RowPosition, w.ColumnPosition), (1, 0));
}

#[test]
fn impossible_time_asks_again() {
    let mut c = ClockState::New();
    let mut w = Writer::new();
    let mut s = Screen::new();
    type_digits(&mut c, &mut w, &mut s, "995999", 0);
    assert!(!IsInitialized(&c));
    assert_eq!(c.InputLength, 0);
    assert_eq!(c.InputDigits, [0; 6]);
    assert_eq!(row_text(&s, 0, 0, 34), "Invalid Time. Use HHMMSS: HH:MM:SS");
}

#[test]
fn keys_after_setting_are_ignored() {
    let mut c = ClockState::New();
    let mut w = Writer::new();
    let mut s = Screen::new();
    type_digits(&mut c, &mut w, &mut s, "000000", 0);
    assert!(IsInitialized(&c));
    let r = HandleKey(&mut c, &mut w, &mut s, '5', 0);
    assert!(r.is_empty());
    assert_eq!((c.Hours, c.Minutes, c.Seconds), (0, 0, 0));
}

#[test]
fn update_counts_whole_seconds() {
    let mut c = ClockState::New();
    let mut w = Writer::new();
    let mut s = Screen::new();
    type_digits(&mut c, &mut w, &mut s, "235958", 10);
    Update(&mut c, &mut w, &mut s, 10 + 17);
    assert_eq!((c.Hours, c.Minutes, c.Seconds), (23, 59, 58));
    Update(&mut c, &mut w, &mut s, 10 + 36 + 5);
    assert_eq!((c.Hours, c.Minutes, c.Seconds), (0, 0, 0));
    assert_eq!(c.LastSecondTick, 46);
    assert_eq!(row_text(&s, 0, 0, 8), "00:00:00");
}

#[test]
fn update_before_setting_does_nothing() {
    let mut c = ClockState::New();
    let mut w = Writer::new();
    let mut s = Screen::new();
    Update(&mut c, &mut w, &mut s, 1000);
    assert_eq!(c.LastSecondTick, 0);
    assert!(s.Cells.iter().all(|b| *b == 0));
}

#[test]
fn advance_wraps_at_midnight() {
    let mut c = ClockState::New();
    c.Hours = 23;
    c.Minutes = 59;
    c.Seconds = 59;
    AdvanceOneSecond(&mut c);
    assert_eq!((c.Hours, c.Minutes, c.Seconds), (0, 0, 0));
    c.Minutes = 9;
    c.Seconds = 59;
    AdvanceOneSecond(&mut c);
    assert_eq!((c.Hours, c.Minutes, c.Seconds), (0, 10, 0));
}

#[test]
fn format_time_pads_with_zeros() {
    assert_eq!(&FormatTime(7, 5, 9), b"07:05:09");
    assert_eq!(&FormatTime(23, 59, 0), b"23:59:00");
}

#[test]
fn advance_carries_out_of_range_fields() {
    let mut c = ClockState::New();
    c.Hours = 30;
    c.Minutes = 70;
    c.Seconds = 70;
    AdvanceOneSecond(&mut c);
    assert_eq!((c.Hours, c.Minutes, c.Seconds), (0, 0, 0));
}

#[test]
fn set_clock_stays_set() {
    let mut c = ClockState::New();
    let mut w = Writer::new();
    let mut s = Screen::new();
    type_digits(&mut c, &mut w, &mut s, "12345", 0);
    assert!(!IsInitialized(&c));
    HandleKey(&mut c, &mut w, &mut s, '6', 0);
    assert!(IsInitialized(&c));
    assert_eq!((c.Hours, c.Minutes, c.Seconds), (12, 34, 56));
    type_digits(&mut c, &mut w, &mut s, "99a9", 0);
    Update(&mut c, &mut w, &mut s, 18 * 90000);
    AdvanceOneSecond(&mut c);
    assert!(IsInitialized(&c));
}

#[test]
fn only_a_time_of_day_sets_the_clock() {
    let mut c = ClockState::New();
    let mut w = Writer::new();
    let mut s = Screen::new();
    type_digits(&mut c, &mut w, &mut s, "246000", 0);
    assert!(!IsInitialized(&c));
    type_digits(&mut c, &mut w, &mut s, "235960", 0);
    assert!(!IsInitialized(&c));
    type_digits(&mut c, &mut w, &mut s, "235959", 0);
    assert!(IsInitialized(&c));
}
