use vstd::prelude::*;
use vstd::string::StringSliceAdditionalSpecFns;
use crate::vga::{
    ClearScreen, Console, CursorRegisters, Screen, SetCursorPosition, SetWriterPosition,
    WriteAt, WriteBytesAt, Writer, cursor_registers, write_at_model, blank_cells,
};

verus! {

/// Timer interrupts in one second.
pub const TicksPerSecond: u64 = 18;
/// What the screen asks for before the time is set.
pub const PROMPT: &'static str = "Enter Initial Time (HHMMSS): ";
/// What the screen asks for after a time that does not exist was entered.
pub const INVALID_PROMPT: &'static str = "Invalid Time. Use HHMMSS: ";
/// Eight blanks, drawn over the place of the time before it is drawn again.
pub const BLANKS: &'static str = "        ";
/// The placeholder shown after the invalid-time prompt.
pub const PLACEHOLDER: &'static str = "HH:MM:SS";

/// A wall clock that is first set by typing six digits and then follows the timer ticks.
pub struct ClockState {
    pub InputDigits: [u8; 6],
    pub InputLength: usize,
    pub IsInitialized: bool,
    pub Hours: u8,
    pub Minutes: u8,
    pub Seconds: u8,
    pub LastSecondTick: u64,
}

/// A time of day.
pub open spec fn valid_time(h: int, m: int, s: int) -> bool {
    0 <= h < 24 && 0 <= m < 60 && 0 <= s < 60
}

/// Seconds since midnight.
pub open spec fn seconds_of_day(h: int, m: int, s: int) -> int {
    h * 3600 + m * 60 + s
}

impl ClockState {
    pub open spec fn wf(&self) -> bool {
        &&& self.InputLength <= 6
        &&& forall|i: int| 0 <= i < 6 ==> #[trigger] self.InputDigits@[i] < 10
        &&& self.IsInitialized ==> valid_time(self.Hours as int, self.Minutes as int, self.Seconds as int)
    }

    /// Seconds since midnight of the time the clock shows.
    pub open spec fn time(&self) -> int {
        seconds_of_day(self.Hours as int, self.Minutes as int, self.Seconds as int)
    }

    /// A clock with no digit entered and no time set.
    pub fn New() -> (c: Self)
        ensures
            c.wf(),
            c.InputDigits@ == seq![0u8, 0u8, 0u8, 0u8, 0u8, 0u8],
            c.InputLength == 0,
            !c.IsInitialized,
            c.Hours == 0 && c.Minutes == 0 && c.Seconds == 0,
            c.LastSecondTick == 0,
    {
        let c = Self {
            InputDigits: [0u8, 0u8, 0u8, 0u8, 0u8, 0u8],
            InputLength: 0,
            IsInitialized: false,
            Hours: 0,
            Minutes: 0,
            Seconds: 0,
            LastSecondTick: 0,
        };
        assert(c.InputDigits@ =~= seq![0u8, 0u8, 0u8, 0u8, 0u8, 0u8]);
        c
    }
}

/// Whether the time has been set.
pub fn IsInitialized(Clock: &ClockState) -> (b: bool)
    ensures
        b == Clock.IsInitialized,
{
    Clock.IsInitialized
}

/// `HH:MM:SS`, with the first `len` placeholders replaced by the digits entered.
pub open spec fn input_display(digits: Seq<u8>, len: int) -> Seq<u8> {
    seq![
        if len > 0 { (48 + digits[0]) as u8 } else { 72u8 },
        if len > 1 { (48 + digits[1]) as u8 } else { 72u8 },
        58u8,
        if len > 2 { (48 + digits[2]) as u8 } else { 77u8 },
        if len > 3 { (48 + digits[3]) as u8 } else { 77u8 },
        58u8,
        if len > 4 { (48 + digits[4]) as u8 } else { 83u8 },
        if len > 5 { (48 + digits[5]) as u8 } else { 83u8 },
    ]
}

/// Column, within the eight characters `HH:MM:SS`, of the place for the next digit.
pub open spec fn cursor_offset(len: int) -> int {
    if len == 0 { 0 } else if len == 1 { 1 } else if len == 2 { 3 } else if len == 3 { 4 }
    else if len == 4 { 6 } else { 7 }
}

/// The entered digits redrawn after the prompt.
pub open spec fn draw_input_model(m: Console, digits: Seq<u8>, len: int) -> Console {
    write_at_model(write_at_model(m, 0, 29, BLANKS.spec_bytes()), 0, 29, input_display(digits, len))
}

/// `HH:MM:SS` in decimal digits.
pub open spec fn time_text(h: u8, m: u8, s: u8) -> Seq<u8> {
    seq![
        (48 + h / 10) as u8, (48 + h % 10) as u8, 58u8,
        (48 + m / 10) as u8, (48 + m % 10) as u8, 58u8,
        (48 + s / 10) as u8, (48 + s % 10) as u8,
    ]
}

/// The time drawn at the top left corner.
pub open spec fn draw_time_model(m: Console, h: u8, mi: u8, s: u8) -> Console {
    write_at_model(write_at_model(m, 0, 0, BLANKS.spec_bytes()), 0, 0, time_text(h, mi, s))
}

/// The screen that asks for the time, with the digits entered so far.
pub open spec fn prompt_model(m: Console, digits: Seq<u8>, len: int) -> Console {
    draw_input_model(
        write_at_model(Console { row: 0, col: 0, cells: blank_cells(m.color), ..m }, 0, 0, PROMPT.spec_bytes()),
        digits,
        len,
    )
}

/// The screen that asks again after a time that does not exist.
pub open spec fn invalid_prompt_model(m: Console) -> Console {
    write_at_model(
        write_at_model(Console { row: 0, col: 0, cells: blank_cells(m.color), ..m }, 0, 0, INVALID_PROMPT.spec_bytes()),
        0,
        26,
        PLACEHOLDER.spec_bytes(),
    )
}

/// The screen once the time is set: only the time, cursor on the second row.
pub open spec fn started_model(m: Console, h: u8, mi: u8, s: u8) -> Console {
    Console {
        row: 1,
        col: 0,
        ..draw_time_model(Console { row: 0, col: 0, cells: blank_cells(m.color), ..m }, h, mi, s)
    }
}

proof fn lemma_literals()
    ensures
        PROMPT.spec_bytes().len() == 29,
        INVALID_PROMPT.spec_bytes().len() == 26,
        BLANKS.spec_bytes().len() == 8,
        PLACEHOLDER.spec_bytes().len() == 8,
{
    reveal_strlit("Enter Initial Time (HHMMSS): ");
    reveal_strlit("Invalid Time. Use HHMMSS: ");
    reveal_strlit("        ");
    reveal_strlit("HH:MM:SS");
    assert(vstd::string::is_ascii(PROMPT));
    assert(vstd::string::is_ascii(INVALID_PROMPT));
    assert(vstd::string::is_ascii(BLANKS));
    assert(vstd::string::is_ascii(PLACEHOLDER));
}

/// The eight characters shown for the digits entered so far.
pub fn InputDisplay(Clock: &ClockState) -> (Characters: [u8; 8])
    requires
        Clock.wf(),
    ensures
        Characters@ == input_display(Clock.InputDigits@, Clock.InputLength as int),
{
    let mut Characters: [u8; 8] = [72u8, 72u8, 58u8, 77u8, 77u8, 58u8, 83u8, 83u8];
    if Clock.InputLength > 0 {
        Characters[0] = 48u8 + Clock.InputDigits[0];
    }
    if Clock.InputLength > 1 {
        Characters[1] = 48u8 + Clock.InputDigits[1];
    }
    if Clock.InputLength > 2 {
        Characters[3] = 48u8 + Clock.InputDigits[2];
    }
    if Clock.InputLength > 3 {
        Characters[4] = 48u8 + Clock.InputDigits[3];
    }
    if Clock.InputLength > 4 {
        Characters[6] = 48u8 + Clock.InputDigits[4];
    }
    if Clock.InputLength > 5 {
        Characters[7] = 48u8 + Clock.InputDigits[5];
    }
    assert(Characters@ =~= input_display(Clock.InputDigits@, Clock.InputLength as int));
    Characters
}

/// Redraws the entered digits after the prompt.
pub fn DrawInputInline(Clock: &ClockState, Writer: &mut Writer, Screen: &mut Screen)
    requires
        Clock.wf(),
        old(Writer).wf(),
        old(Screen).wf(),
    ensures
        final(Writer).wf(),
        final(Screen).wf(),
        final(Writer).model(final(Screen)) == draw_input_model(
            old(Writer).model(old(Screen)),
            Clock.InputDigits@,
            Clock.InputLength as int,
        ),
{
    let Characters = InputDisplay(Clock);
    proof {
        lemma_literals();
    }
    let PromptCol = PROMPT.len();
    WriteAt(Writer, Screen, 0, PromptCol, BLANKS);
    WriteBytesAt(Writer, Screen, 0, PromptCol, Characters.as_slice());
}

/// Column, within `HH:MM:SS`, of the place for the next digit.
pub fn CursorOffset(InputLength: usize) -> (Offset: usize)
    ensures
        Offset == cursor_offset(InputLength as int),
{
    match InputLength {
        0 => 0,
        1 => 1,
        2 => 3,
        3 => 4,
        4 => 6,
        5 => 7,
        _ => 7,
    }
}

/// Cursor registers for the place of the next digit after the prompt.
pub fn UpdateInputCursor(Clock: &ClockState) -> (r: CursorRegisters)
    ensures
        r == cursor_registers(0, 29 + cursor_offset(Clock.InputLength as int)),
{
    proof {
        lemma_literals();
    }
    let PromptCol = PROMPT.len();
    SetCursorPosition(0, PromptCol + CursorOffset(Clock.InputLength))
}

/// Cursor registers for the place of the next digit after the invalid-time prompt.
pub fn UpdateInvalidCursor(Clock: &ClockState) -> (r: CursorRegisters)
    ensures
        r == cursor_registers(0, 26 + cursor_offset(Clock.InputLength as int)),
{
    proof {
        lemma_literals();
    }
    let PromptCol = INVALID_PROMPT.len();
    SetCursorPosition(0, PromptCol + CursorOffset(Clock.InputLength))
}

/// Draws the placeholder after the invalid-time prompt.
pub fn DrawInvalidInputInline(Writer: &mut Writer, Screen: &mut Screen)
    requires
        old(Writer).wf(),
        old(Screen).wf(),
    ensures
        final(Writer).wf(),
        final(Screen).wf(),
        final(Writer).model(final(Screen)) == write_at_model(old(Writer).model(old(Screen)), 0, 26, PLACEHOLDER.spec_bytes()),
{
    proof {
        lemma_literals();
    }
    WriteAt(Writer, Screen, 0, INVALID_PROMPT.len(), PLACEHOLDER);
}

/// `HH:MM:SS` in decimal digits.
pub fn FormatTime(Hours: u8, Minutes: u8, Seconds: u8) -> (Text: [u8; 8])
    ensures
        Text@ == time_text(Hours, Minutes, Seconds),
{
    let Text: [u8; 8] = [
        48u8 + (Hours / 10),
        48u8 + (Hours % 10),
        58u8,
        48u8 + (Minutes / 10),
        48u8 + (Minutes % 10),
        58u8,
        48u8 + (Seconds / 10),
        48u8 + (Seconds % 10),
    ];
    assert(Text@ =~= time_text(Hours, Minutes, Seconds));
    Text
}

/// Draws the time at the top left corner.
pub fn DrawTime(Writer: &mut Writer, Screen: &mut Screen, Hours: u8, Minutes: u8, Seconds: u8)
    requires
        old(Writer).wf(),
        old(Screen).wf(),
    ensures
        final(Writer).wf(),
        final(Screen).wf(),
        final(Writer).model(final(Screen)) == draw_time_model(old(Writer).model(old(Screen)), Hours, Minutes, Seconds),
{
    let TimeBytes = FormatTime(Hours, Minutes, Seconds);
    WriteAt(Writer, Screen, 0, 0, BLANKS);
    WriteBytesAt(Writer, Screen, 0, 0, TimeBytes.as_slice());
}

/// Clears the screen and asks for the time; returns the registers that put the cursor on
/// the place of the next digit.
pub fn PrintPrompt(Clock: &ClockState, Writer: &mut Writer, Screen: &mut Screen) -> (r: CursorRegisters)
    requires
        Clock.wf(),
        old(Writer).wf(),
        old(Screen).wf(),
    ensures
        final(Writer).wf(),
        final(Screen).wf(),
        final(Writer).model(final(Screen)) == prompt_model(
            old(Writer).model(old(Screen)),
            Clock.InputDigits@,
            Clock.InputLength as int,
        ),
        r == cursor_registers(0, 29 + cursor_offset(Clock.InputLength as int)),
{
    ClearScreen(Writer, Screen);
    WriteAt(Writer, Screen, 0, 0, PROMPT);
    DrawInputInline(Clock, Writer, Screen);
    UpdateInputCursor(Clock)
}

/// The time the six digits stand for: hours, minutes and seconds of two digits each.
pub open spec fn parsed_time(digits: Seq<u8>) -> (int, int, int) {
    (
        digits[0] * 10 + digits[1],
        digits[2] * 10 + digits[3],
        digits[4] * 10 + digits[5],
    )
}

/// What `FinalizeInput` does to a clock holding `digits` (and otherwise the fields of
/// `before`) at tick `tick`, to the screen and to the cursor.
pub open spec fn finalize_post(
    digits: Seq<u8>,
    len: int,
    before: ClockState,
    after: ClockState,
    m_before: Console,
    m_after: Console,
    tick: u64,
    r: CursorRegisters,
) -> bool {
    let (h, mi, s) = parsed_time(digits);
    if valid_time(h, mi, s) {
        &&& after.Hours == h && after.Minutes == mi && after.Seconds == s
        &&& after.IsInitialized
        &&& after.LastSecondTick == tick
        &&& after.InputDigits@ == digits
        &&& after.InputLength == len
        &&& m_after == started_model(m_before, h as u8, mi as u8, s as u8)
        &&& r == cursor_registers(1, 0)
    } else {
        &&& after.InputDigits@ == seq![0u8, 0u8, 0u8, 0u8, 0u8, 0u8]
        &&& after.InputLength == 0
        &&& after.IsInitialized == before.IsInitialized
        &&& after.Hours == before.Hours && after.Minutes == before.Minutes && after.Seconds == before.Seconds
        &&& after.LastSecondTick == before.LastSecondTick
        &&& m_after == invalid_prompt_model(m_before)
        &&& r == cursor_registers(0, 26)
    }
}

/// Reads the entered digits as a time: a time of day starts the clock at tick
/// `CurrentTick` and shows it; anything else clears the digits and asks again. Returns the
/// registers that place the cursor.
pub fn FinalizeInput(Clock: &mut ClockState, Writer: &mut Writer, Screen: &mut Screen, CurrentTick: u64) -> (r: CursorRegisters)
    requires
        old(Clock).wf(),
        old(Clock).InputLength == 6,
        old(Writer).wf(),
        old(Screen).wf(),
    ensures
        final(Clock).wf(),
        final(Writer).wf(),
        final(Screen).wf(),
        finalize_post(
            old(Clock).InputDigits@,
            old(Clock).InputLength as int,
            *old(Clock),
            *final(Clock),
            old(Writer).model(old(Screen)),
            final(Writer).model(final(Screen)),
            CurrentTick,
            r,
        ),
{
    let Hours: u8 = Clock.InputDigits[0] * 10 + Clock.InputDigits[1];
    let Minutes: u8 = Clock.InputDigits[2] * 10 + Clock.InputDigits[3];
    let Seconds: u8 = Clock.InputDigits[4] * 10 + Clock.InputDigits[5];

    if Hours < 24 && Minutes < 60 && Seconds < 60 {
        Clock.Hours = Hours;
        Clock.Minutes = Minutes;
        Clock.Seconds = Seconds;
        Clock.IsInitialized = true;
        Clock.LastSecondTick = CurrentTick;
        ClearScreen(Writer, Screen);
        DrawTime(Writer, Screen, Hours, Minutes, Seconds);
        SetWriterPosition(Writer, 1, 0)
    } else {
        Clock.InputDigits = [0u8, 0u8, 0u8, 0u8, 0u8, 0u8];
        Clock.InputLength = 0;
        assert(Clock.InputDigits@ =~= seq![0u8, 0u8, 0u8, 0u8, 0u8, 0u8]);
        ClearScreen(Writer, Screen);
        WriteAt(Writer, Screen, 0, 0, INVALID_PROMPT);
        DrawInvalidInputInline(Writer, Screen);
        UpdateInvalidCursor(Clock)
    }
}

/// Whether `c` is one of the characters `0` to `9`.
pub open spec fn is_digit(c: char) -> bool {
    '0' <= c && c <= '9'
}

/// What `HandleKey` does with character `c` at tick `tick` to the clock, the screen and the
/// cursor registers it returns.
pub open spec fn handle_key_post(
    before: ClockState,
    after: ClockState,
    m_before: Console,
    m_after: Console,
    c: char,
    tick: u64,
    r: Seq<CursorRegisters>,
) -> bool {
    &&& (!is_digit(c) || before.IsInitialized || before.InputLength >= 6 ==> {
            &&& after == before
            &&& m_after == m_before
            &&& r.len() == 0
        })
    &&& (is_digit(c) && !before.IsInitialized && before.InputLength < 6 ==> {
            let len = before.InputLength + 1;
            let digits = before.InputDigits@.update(before.InputLength as int, (c as u32 - 48) as u8);
            let m1 = draw_input_model(m_before, digits, len);
            &&& r.len() >= 1
            &&& r[0] == cursor_registers(0, 29 + cursor_offset(len))
            &&& if len < 6 {
                &&& after.InputDigits@ == digits
                &&& after.InputLength == len
                &&& after.IsInitialized == before.IsInitialized
                &&& after.Hours == before.Hours
                &&& after.Minutes == before.Minutes
                &&& after.Seconds == before.Seconds
                &&& after.LastSecondTick == before.LastSecondTick
                &&& m_after == m1
                &&& r.len() == 1
            } else {
                &&& r.len() == 2
                &&& finalize_post(digits, len, before, after, m1, m_after, tick, r[1])
            }
        })
}

/// Takes a typed character while the time is being entered: a digit is stored and shown,
/// and the sixth digit sets the clock (or is refused) as `FinalizeInput` does. Any other
/// character, and any key once the time is set or six digits are in, changes nothing.
/// Returns, in order, the cursor registers to send.
pub fn HandleKey(
    Clock: &mut ClockState,
    Writer: &mut Writer,
    Screen: &mut Screen,
    Character: char,
    CurrentTick: u64,
) -> (r: Vec<CursorRegisters>)
    requires
        old(Clock).wf(),
        old(Writer).wf(),
        old(Screen).wf(),
    ensures
        final(Clock).wf(),
        final(Writer).wf(),
        final(Screen).wf(),
        handle_key_post(*old(Clock), *final(Clock), old(Writer).model(old(Screen)), final(Writer).model(final(Screen)), Character, CurrentTick, r@),
{
    let mut Actions: Vec<CursorRegisters> = Vec::new();
    if !('0' <= Character && Character <= '9') {
        return Actions;
    }
    if Clock.IsInitialized || Clock.InputLength >= 6 {
        return Actions;
    }
    let InputIndex = Clock.InputLength;
    let Digit: u8 = (Character as u32 - 48) as u8;
    Clock.InputDigits[InputIndex] = Digit;
    Clock.InputLength = Clock.InputLength + 1;
    let ShouldFinalize = Clock.InputLength == 6;

    DrawInputInline(Clock, Writer, Screen);
    Actions.push(UpdateInputCursor(Clock));

    if ShouldFinalize {
        let Last = FinalizeInput(Clock, Writer, Screen, CurrentTick);
        Actions.push(Last);
    }
    Actions
}

/// The time one second after (`h`, `m`, `s`), carried field by field: seconds from 60 on
/// become a new minute, minutes from 60 on a new hour, hours from 24 on midnight.
pub open spec fn advanced(h: u8, m: u8, s: u8) -> (u8, u8, u8) {
    let s1 = s + 1;
    let (s2, m1) = if s1 >= 60 { (0int, m + 1) } else { (s1, m as int) };
    let (m2, h1) = if m1 >= 60 { (0int, h + 1) } else { (m1, h as int) };
    let h2 = if h1 >= 24 { 0int } else { h1 };
    (h2 as u8, m2 as u8, s2 as u8)
}

/// Moves the time one second on; on a time of day, from 23:59:59 to 00:00:00.
pub fn AdvanceOneSecond(Clock: &mut ClockState)
    requires
        old(Clock).Seconds < 255,
        old(Clock).Seconds + 1 >= 60 ==> old(Clock).Minutes < 255,
        (if old(Clock).Seconds + 1 >= 60 { old(Clock).Minutes + 1 } else { old(Clock).Minutes as int }) >= 60
            ==> old(Clock).Hours < 255,
    ensures
        (final(Clock).Hours, final(Clock).Minutes, final(Clock).Seconds) == advanced(
            old(Clock).Hours,
            old(Clock).Minutes,
            old(Clock).Seconds,
        ),
        valid_time(old(Clock).Hours as int, old(Clock).Minutes as int, old(Clock).Seconds as int) ==> {
            &&& valid_time(final(Clock).Hours as int, final(Clock).Minutes as int, final(Clock).Seconds as int)
            &&& final(Clock).time() == (old(Clock).time() + 1) % 86400
        },
        final(Clock).InputDigits == old(Clock).InputDigits,
        final(Clock).InputLength == old(Clock).InputLength,
        final(Clock).IsInitialized == old(Clock).IsInitialized,
        final(Clock).LastSecondTick == old(Clock).LastSecondTick,
{
    Clock.Seconds = Clock.Seconds + 1;
    if Clock.Seconds >= 60 {
        Clock.Seconds = 0;
        Clock.Minutes = Clock.Minutes + 1;
    }
    if Clock.Minutes >= 60 {
        Clock.Minutes = 0;
        Clock.Hours = Clock.Hours + 1;
    }
    if Clock.Hours >= 24 {
        Clock.Hours = 0;
    }
}

/// Whole seconds that have passed from tick `last` to tick `now` (none when `now` is
/// earlier).
pub open spec fn elapsed_seconds(last: u64, now: u64) -> int {
    if now >= last { (now - last) / 18 } else { 0 }
}

/// Once the time is set, moves it on by every whole second since the last counted one and
/// redraws it if it changed. Before that, does nothing.
pub fn Update(Clock: &mut ClockState, Writer: &mut Writer, Screen: &mut Screen, CurrentTick: u64)
    requires
        old(Clock).wf(),
        old(Writer).wf(),
        old(Screen).wf(),
    ensures
        final(Clock).wf(),
        final(Writer).wf(),
        final(Screen).wf(),
        final(Clock).IsInitialized == old(Clock).IsInitialized,
        !old(Clock).IsInitialized ==> *final(Clock) == *old(Clock)
            && final(Writer).model(final(Screen)) == old(Writer).model(old(Screen)),
        old(Clock).IsInitialized ==> {
            let n = elapsed_seconds(old(Clock).LastSecondTick, CurrentTick);
            &&& final(Clock).IsInitialized
            &&& final(Clock).time() == (old(Clock).time() + n) % 86400
            &&& final(Clock).LastSecondTick == old(Clock).LastSecondTick + 18 * n
            &&& final(Clock).InputDigits == old(Clock).InputDigits
            &&& final(Clock).InputLength == old(Clock).InputLength
            &&& if n > 0 {
                final(Writer).model(final(Screen)) == draw_time_model(
                    old(Writer).model(old(Screen)),
                    final(Clock).Hours,
                    final(Clock).Minutes,
                    final(Clock).Seconds,
                )
            } else {
                final(Writer).model(final(Screen)) == old(Writer).model(old(Screen))
            }
        },
{
    if !Clock.IsInitialized {
        return;
    }
    let ghost last0 = Clock.LastSecondTick;
    let ghost time0 = Clock.time();
    let ghost mut k: int = 0;
    let mut Advanced = false;
    while CurrentTick.saturating_sub(Clock.LastSecondTick) >= TicksPerSecond
        invariant
            Clock.wf(),
            Clock.IsInitialized,
            Clock.InputDigits == old(Clock).InputDigits,
            Clock.InputLength == old(Clock).InputLength,
            Clock.LastSecondTick == last0 + 18 * k,
            0 <= k,
            k > 0 ==> Clock.LastSecondTick <= CurrentTick,
            Advanced == (k > 0),
            0 <= time0 < 86400,
            Clock.time() == (time0 + k) % 86400,
        decreases CurrentTick - Clock.LastSecondTick,
    {
        Clock.LastSecondTick = Clock.LastSecondTick + TicksPerSecond;
        AdvanceOneSecond(Clock);
        proof {
            vstd::arithmetic::div_mod::lemma_add_mod_noop(time0 + k, 1, 86400);
            k = k + 1;
        }
        Advanced = true;
    }
    proof {
        if CurrentTick >= last0 {
            assert(CurrentTick - last0 == 18 * k + (CurrentTick - Clock.LastSecondTick));
            assert((CurrentTick - last0) / 18 == k) by (nonlinear_arith)
                requires
                    CurrentTick - last0 == 18 * k + (CurrentTick - Clock.LastSecondTick),
                    0 <= CurrentTick - Clock.LastSecondTick < 18,
            ;
        }
    }
    if Advanced {
        DrawTime(Writer, Screen, Clock.Hours, Clock.Minutes, Clock.Seconds);
    }
}

/// The clock, once set, shows exactly the six digits that were typed: the time text of the
/// parsed time is the input display of all six digits.
pub proof fn law_time_shows_digits_typed(digits: Seq<u8>)
    requires
        digits.len() == 6,
        forall|i: int| 0 <= i < 6 ==> #[trigger] digits[i] < 10,
        valid_time(parsed_time(digits).0, parsed_time(digits).1, parsed_time(digits).2),
    ensures
        time_text(parsed_time(digits).0 as u8, parsed_time(digits).1 as u8, parsed_time(digits).2 as u8)
            == input_display(digits, 6),
{
    let (h, m, s) = parsed_time(digits);
    assert(digits[0] < 10 && digits[1] < 10 && digits[2] < 10 && digits[3] < 10 && digits[4] < 10 && digits[5] < 10);
    assert((h as u8) / 10 == digits[0] && (h as u8) % 10 == digits[1]);
    assert((m as u8) / 10 == digits[2] && (m as u8) % 10 == digits[3]);
    assert((s as u8) / 10 == digits[4] && (s as u8) % 10 == digits[5]);
    assert(time_text(h as u8, m as u8, s as u8) =~= input_display(digits, 6));
}

/// Entering the time decides once: a set clock stays set, and a clock is set exactly when
/// the six digits entered read as a time of day, which it then shows.
pub proof fn law_finalize_sets_only_a_time_of_day(
    digits: Seq<u8>,
    len: int,
    before: ClockState,
    after: ClockState,
    m_before: Console,
    m_after: Console,
    tick: u64,
    r: CursorRegisters,
)
    requires
        finalize_post(digits, len, before, after, m_before, m_after, tick, r),
    ensures
        after.IsInitialized == (before.IsInitialized
            || valid_time(parsed_time(digits).0, parsed_time(digits).1, parsed_time(digits).2)),
        !before.IsInitialized && after.IsInitialized ==>
            (after.Hours as int, after.Minutes as int, after.Seconds as int) == parsed_time(digits),
{
}

/// No key takes a set clock back to unset, and a key sets the clock only as the sixth digit
/// of an entry whose six digits read as a time of day; the clock then shows that time.
pub proof fn law_key_sets_clock_only_on_a_time_of_day(
    before: ClockState,
    after: ClockState,
    m_before: Console,
    m_after: Console,
    c: char,
    tick: u64,
    r: Seq<CursorRegisters>,
)
    requires
        handle_key_post(before, after, m_before, m_after, c, tick, r),
    ensures
        ({
            let digits = before.InputDigits@.update(before.InputLength as int, (c as u32 - 48) as u8);
            let entered = is_digit(c) && !before.IsInitialized && before.InputLength == 5;
            &&& after.IsInitialized == (before.IsInitialized
                || (entered && valid_time(parsed_time(digits).0, parsed_time(digits).1, parsed_time(digits).2)))
            &&& !before.IsInitialized && after.IsInitialized ==>
                (after.Hours as int, after.Minutes as int, after.Seconds as int) == parsed_time(digits)
        }),
{
}

/// A running clock wraps around once a day: after `n` seconds it shows the time `n`
/// seconds later modulo a day, and whole days change nothing.
pub proof fn law_day_wraps(t: int, n: int)
    requires
        0 <= t < 86400,
        0 <= n,
    ensures
        (t + n) % 86400 == (t + n % 86400) % 86400,
        (t + 86400 * n) % 86400 == t,
{
    vstd::arithmetic::div_mod::lemma_add_mod_noop(t, n, 86400);
    vstd::arithmetic::div_mod::lemma_mod_multiples_vanish(n, t, 86400);
    vstd::arithmetic::div_mod::lemma_small_mod(t as nat, 86400);
    vstd::arithmetic::div_mod::lemma_small_mod((n % 86400) as nat, 86400);
    vstd::arithmetic::div_mod::lemma_mod_bound(n, 86400);
}

/// The cursor stands on the place of the next digit: that place still shows its letter
/// (`H`, `M` or `S`), and typing digit `d` shows `d` exactly there and changes nothing else.
pub proof fn law_next_digit_lands_at_cursor(digits: Seq<u8>, len: int, d: u8)
    requires
        digits.len() == 6,
        0 <= len < 6,
        d < 10,
    ensures
        ({
            let before = input_display(digits, len);
            let after = input_display(digits.update(len, d), len + 1);
            let at = cursor_offset(len);
            &&& 0 <= at < 8
            &&& before[at] == 72u8 || before[at] == 77u8 || before[at] == 83u8
            &&& after[at] == 48 + d
            &&& forall|k: int| 0 <= k < 8 && k != at ==> #[trigger] after[k] == before[k]
        }),
{
}

/// The clock counts whole seconds of 18 ticks: `n` seconds have passed when the ticks since
/// the last counted second are at least `18 * n` and fewer than `18 * (n + 1)`.
pub proof fn law_elapsed_whole_seconds(last: u64, now: u64)
    ensures
        now >= last ==> 18 * elapsed_seconds(last, now) <= now - last < 18 * (elapsed_seconds(last, now) + 1),
        now < last ==> elapsed_seconds(last, now) == 0,
{
}

} // verus!
