use vstd::prelude::*;
use vstd::string::StrSliceExecFns;
use vstd::string::StringExecFns;
use vstd::string::StringSliceAdditionalSpecFns;
use crate::text::{
    CountByte, MaxLineWidth, WordCount, count_byte, decode_lossy, is_prefix,
    max_line_width, push_char, starts_with, str_chars, str_eq, string_from_chars, utf8_lossy,
    word_count, trim, trim_chars,
};

verus! {

/// Which counts to print.
#[derive(Clone, Copy, Debug, PartialEq, Eq, Structural)]
pub struct SelectedCounts {
    pub PrintLines: bool,
    pub PrintWords: bool,
    pub PrintChars: bool,
    pub PrintBytes: bool,
    pub PrintMaxLineLength: bool,
}

/// The counts of one input.
#[derive(Clone, Copy, Debug, PartialEq, Eq, Structural)]
pub struct WcCounts {
    pub Lines: u64,
    pub Words: u64,
    pub Chars: u64,
    pub Bytes: u64,
    pub MaxLineLength: u64,
}

impl SelectedCounts {
    /// Nothing selected.
    pub fn none() -> (s: Self)
        ensures
            !s.PrintLines && !s.PrintWords && !s.PrintChars && !s.PrintBytes && !s.PrintMaxLineLength,
    {
        SelectedCounts { PrintLines: false, PrintWords: false, PrintChars: false, PrintBytes: false, PrintMaxLineLength: false }
    }
}

/// A width as a counter: widths beyond `u64::MAX` (over 2^61 characters) are given as
/// `u64::MAX`.
pub open spec fn width_counter(w: nat) -> u64 {
    if w > u64::MAX { u64::MAX } else { w as u64 }
}

/// The counts of `bytes`: line feeds, words, characters (of the text decoded as
/// `String::from_utf8_lossy` does), bytes, and the maximum display width of its lines.
pub open spec fn counts_of(bytes: Seq<u8>) -> WcCounts {
    let text = utf8_lossy(bytes);
    WcCounts {
        Lines: count_byte(bytes, 10) as u64,
        Words: word_count(text) as u64,
        Chars: text.len() as u64,
        Bytes: bytes.len() as u64,
        MaxLineLength: width_counter(max_line_width(text)),
    }
}

/// Counts lines, words, characters and bytes of `InputBytes`, and the maximum display width
/// of its lines (a tab moves on to the next multiple of 8, every other character takes one
/// column).
pub fn ComputeCounts(InputBytes: &[u8]) -> (c: WcCounts)
    ensures
        c == counts_of(InputBytes@),
        c.Bytes == InputBytes@.len(),
        c.Lines == count_byte(InputBytes@, 10),
        c.Words == word_count(utf8_lossy(InputBytes@)),
        c.Chars == utf8_lossy(InputBytes@).len(),
        c.MaxLineLength == width_counter(max_line_width(utf8_lossy(InputBytes@))),
{
    let Bytes: u64 = InputBytes.len() as u64;
    let Lines: u64 = CountByte(InputBytes, 10u8);
    let Text = decode_lossy(InputBytes);
    let Words: u64 = WordCount(Text.as_slice());
    let Chars: u64 = Text.len() as u64;
    let Width: u128 = MaxLineWidth(Text.as_slice());
    let MaxLine: u64 = if Width > u64::MAX as u128 { u64::MAX } else { Width as u64 };
    WcCounts { Lines, Words, Chars, Bytes, MaxLineLength: MaxLine }
}

/// Sums of the counts, and the largest longest line.
pub struct CountsSum {
    pub lines: int,
    pub words: int,
    pub chars: int,
    pub bytes: int,
    pub max_line: int,
}

/// Sum of each count over `rs`; the longest line is the largest one.
pub open spec fn total_of(rs: Seq<(Option<String>, WcCounts)>) -> CountsSum
    decreases rs.len(),
{
    if rs.len() == 0 {
        CountsSum { lines: 0, words: 0, chars: 0, bytes: 0, max_line: 0 }
    } else {
        let t = total_of(rs.drop_last());
        let c = rs.last().1;
        CountsSum {
            lines: t.lines + c.Lines,
            words: t.words + c.Words,
            chars: t.chars + c.Chars,
            bytes: t.bytes + c.Bytes,
            max_line: if c.MaxLineLength > t.max_line { c.MaxLineLength as int } else { t.max_line },
        }
    }
}

/// The sums fit in the counters.
pub open spec fn total_fits(rs: Seq<(Option<String>, WcCounts)>) -> bool {
    let t = total_of(rs);
    t.lines <= u64::MAX && t.words <= u64::MAX && t.chars <= u64::MAX && t.bytes <= u64::MAX
}

proof fn lemma_total_monotone(rs: Seq<(Option<String>, WcCounts)>, i: int)
    requires
        0 <= i <= rs.len(),
    ensures
        total_of(rs.subrange(0, i)).lines <= total_of(rs).lines,
        total_of(rs.subrange(0, i)).words <= total_of(rs).words,
        total_of(rs.subrange(0, i)).chars <= total_of(rs).chars,
        total_of(rs.subrange(0, i)).bytes <= total_of(rs).bytes,
        0 <= total_of(rs.subrange(0, i)).max_line <= u64::MAX,
    decreases rs.len() - i,
{
    if i < rs.len() {
        lemma_total_monotone(rs, i + 1);
        assert(rs.subrange(0, i + 1).drop_last() =~= rs.subrange(0, i));
    } else {
        assert(rs.subrange(0, i) =~= rs);
        lemma_total_nonneg(rs);
    }
}

proof fn lemma_total_nonneg(rs: Seq<(Option<String>, WcCounts)>)
    ensures
        0 <= total_of(rs).lines && 0 <= total_of(rs).words && 0 <= total_of(rs).chars && 0 <= total_of(rs).bytes,
        0 <= total_of(rs).max_line <= u64::MAX,
    decreases rs.len(),
{
    if rs.len() > 0 {
        lemma_total_nonneg(rs.drop_last());
    }
}

/// The totals over all results.
pub fn ComputeTotal(Results: &[(Option<String>, WcCounts)]) -> (t: WcCounts)
    requires
        total_fits(Results@),
    ensures
        t.Lines == total_of(Results@).lines,
        t.Words == total_of(Results@).words,
        t.Chars == total_of(Results@).chars,
        t.Bytes == total_of(Results@).bytes,
        t.MaxLineLength == total_of(Results@).max_line,
{
    let mut Total = WcCounts { Lines: 0, Words: 0, Chars: 0, Bytes: 0, MaxLineLength: 0 };
    let mut i: usize = 0;
    while i < Results.len()
        invariant
            i <= Results@.len(),
            total_fits(Results@),
            Total.Lines == total_of(Results@.subrange(0, i as int)).lines,
            Total.Words == total_of(Results@.subrange(0, i as int)).words,
            Total.Chars == total_of(Results@.subrange(0, i as int)).chars,
            Total.Bytes == total_of(Results@.subrange(0, i as int)).bytes,
            Total.MaxLineLength == total_of(Results@.subrange(0, i as int)).max_line,
        decreases Results@.len() - i,
    {
        proof {
            lemma_total_monotone(Results@, i + 1);
            assert(Results@.subrange(0, i + 1).drop_last() =~= Results@.subrange(0, i as int));
        }
        let Counts = Results[i].1;
        Total.Lines = Total.Lines + Counts.Lines;
        Total.Words = Total.Words + Counts.Words;
        Total.Chars = Total.Chars + Counts.Chars;
        Total.Bytes = Total.Bytes + Counts.Bytes;
        if Counts.MaxLineLength > Total.MaxLineLength {
            Total.MaxLineLength = Counts.MaxLineLength;
        }
        i = i + 1;
    }
    assert(Results@.subrange(0, Results@.len() as int) =~= Results@);
    Total
}

/// Decimal digits of `n`.
pub open spec fn decimal(n: nat) -> Seq<char>
    decreases n,
{
    if n < 10 {
        seq![(48 + n) as char]
    } else {
        decimal(n / 10).push((48 + n % 10) as char)
    }
}

/// Ten to the power `k`.
pub open spec fn pow10(k: nat) -> nat
    decreases k,
{
    if k == 0 { 1 } else { 10 * pow10((k - 1) as nat) }
}

proof fn lemma_decimal_len_bound(n: nat, k: nat)
    requires
        k >= 1,
        n < pow10(k),
    ensures
        1 <= decimal(n).len() <= k,
    decreases k,
{
    if n >= 10 {
        assert(k >= 2) by {
            if k == 1 {
                assert(pow10(1) == 10 * pow10(0));
            }
        }
        assert(pow10(k) == 10 * pow10((k - 1) as nat));
        assert(n / 10 < pow10((k - 1) as nat)) by (nonlinear_arith)
            requires
                n < 10 * pow10((k - 1) as nat),
        ;
        lemma_decimal_len_bound(n / 10, (k - 1) as nat);
    }
}

proof fn lemma_decimal_u64(n: u64)
    ensures
        1 <= decimal(n as nat).len() <= 20,
{
    reveal_with_fuel(pow10, 21);
    assert(pow10(20) == 100000000000000000000nat);
    lemma_decimal_len_bound(n as nat, 20);
}

/// Number of decimal digits of `Value`.
pub fn DigitCount(Value: u64) -> (n: usize)
    ensures
        n == decimal(Value as nat).len(),
        1 <= n <= 20,
{
    proof {
        lemma_decimal_u64(Value);
    }
    if Value == 0 {
        return 1;
    }
    proof {
        lemma_decimal_u64(Value);
    }
    let mut Count: usize = 0;
    let mut Current: u64 = Value;
    while Current > 0
        invariant
            decimal(Value as nat).len() <= 20,
            Current > 0 ==> Count + decimal(Current as nat).len() == decimal(Value as nat).len(),
            Current == 0 ==> Count == decimal(Value as nat).len(),
        decreases Current,
    {
        proof {
            if Current >= 10 {
                assert(decimal(Current as nat).len() == 1 + decimal((Current / 10) as nat).len());
            }
        }
        Current = Current / 10;
        Count = Count + 1;
    }
    Count
}

/// Appends the decimal digits of `Value` to `Output`.
pub fn push_decimal(Output: &mut String, Value: u64)
    ensures
        final(Output)@ == old(Output)@ + decimal(Value as nat),
    decreases Value,
{
    if Value >= 10 {
        push_decimal(Output, Value / 10);
    }
    let Digit: u8 = (Value % 10) as u8;
    push_char(Output, (48u8 + Digit) as char);
    proof {
        if Value >= 10 {
            assert(final(Output)@ =~= old(Output)@ + decimal(Value as nat));
        } else {
            assert(final(Output)@ =~= old(Output)@ + decimal(Value as nat));
        }
    }
}

/// `n` blanks.
pub open spec fn spaces(n: int) -> Seq<char> {
    Seq::new(n as nat, |i: int| ' ')
}

/// `v` in decimal, padded on the left with blanks to `width` characters.
pub open spec fn right_aligned(v: u64, width: int) -> Seq<char> {
    let d = decimal(v as nat);
    if d.len() < width { spaces(width - d.len()) + d } else { d }
}

/// Appends `Value` in decimal, padded on the left with blanks to `Width` characters
/// (`format!("{:>Width$}", Value)`).
pub fn push_right_aligned(Output: &mut String, Value: u64, Width: usize)
    ensures
        final(Output)@ == old(Output)@ + right_aligned(Value, Width as int),
{
    let Digits = DigitCount(Value);
    let ghost start = Output@;
    if Digits < Width {
        let mut Pad: usize = 0;
        while Pad < Width - Digits
            invariant
                Digits < Width,
                Pad <= Width - Digits,
                Output@ == start + spaces(Pad as int),
            decreases Width - Digits - Pad,
        {
            push_char(Output, ' ');
            assert(Output@ =~= start + spaces(Pad + 1));
            Pad = Pad + 1;
        }
    }
    push_decimal(Output, Value);
    assert(Output@ =~= start + right_aligned(Value, Width as int));
}

/// Widths of the columns: lines, words, characters, bytes, longest line.
pub type Widths = (usize, usize, usize, usize, usize);

/// The line printed for one input: the selected counts right-aligned in their columns, then
/// the name when names are shown.
pub open spec fn one_line(sel: SelectedCounts, c: WcCounts, name: Option<Seq<char>>, has_names: bool, w: Widths) -> Seq<char> {
    (if sel.PrintLines { right_aligned(c.Lines, w.0 as int) } else { seq![] })
        + (if sel.PrintWords { right_aligned(c.Words, w.1 as int) } else { seq![] })
        + (if sel.PrintChars { right_aligned(c.Chars, w.2 as int) } else { seq![] })
        + (if sel.PrintBytes { right_aligned(c.Bytes, w.3 as int) } else { seq![] })
        + (if sel.PrintMaxLineLength { right_aligned(c.MaxLineLength, w.4 as int) } else { seq![] })
        + (if has_names && name is Some { seq![' '] + name.unwrap() } else { seq![] })
}

/// The characters of an optional name.
pub open spec fn name_view(name: Option<&str>) -> Option<Seq<char>> {
    match name {
        Some(n) => Some(n@),
        None => None,
    }
}

/// The line printed for one input.
pub fn FormatOneLine(Selected: SelectedCounts, Counts: WcCounts, Name: Option<&str>, HasNames: bool, Widths: Widths) -> (Output: String)
    ensures
        Output@ == one_line(Selected, Counts, name_view(Name), HasNames, Widths),
{
    let (LinesWidth, WordsWidth, CharsWidth, BytesWidth, MaxLineWidth) = Widths;
    let mut Output = String::new();
    let ghost mut expected: Seq<char> = seq![];
    if Selected.PrintLines {
        push_right_aligned(&mut Output, Counts.Lines, LinesWidth);
    }
    if Selected.PrintWords {
        push_right_aligned(&mut Output, Counts.Words, WordsWidth);
    }
    if Selected.PrintChars {
        push_right_aligned(&mut Output, Counts.Chars, CharsWidth);
    }
    if Selected.PrintBytes {
        push_right_aligned(&mut Output, Counts.Bytes, BytesWidth);
    }
    if Selected.PrintMaxLineLength {
        push_right_aligned(&mut Output, Counts.MaxLineLength, MaxLineWidth);
    }
    if HasNames {
        match Name {
            Some(Value) => {
                push_char(&mut Output, ' ');
                Output.append(Value);
            },
            None => {},
        }
    }
    assert(Output@ =~= one_line(Selected, Counts, name_view(Name), HasNames, Widths));
    Output
}

/// Largest value of each count over `rs`.
pub open spec fn max_of(rs: Seq<(Option<String>, WcCounts)>) -> WcCounts
    decreases rs.len(),
{
    if rs.len() == 0 {
        WcCounts { Lines: 0, Words: 0, Chars: 0, Bytes: 0, MaxLineLength: 0 }
    } else {
        max_counts(max_of(rs.drop_last()), rs.last().1)
    }
}

/// The larger value of each count.
pub open spec fn max_counts(a: WcCounts, b: WcCounts) -> WcCounts {
    WcCounts {
        Lines: if b.Lines > a.Lines { b.Lines } else { a.Lines },
        Words: if b.Words > a.Words { b.Words } else { a.Words },
        Chars: if b.Chars > a.Chars { b.Chars } else { a.Chars },
        Bytes: if b.Bytes > a.Bytes { b.Bytes } else { a.Bytes },
        MaxLineLength: if b.MaxLineLength > a.MaxLineLength { b.MaxLineLength } else { a.MaxLineLength },
    }
}

/// Width of a column: one more than the digits of its largest value, or nothing when the
/// count is not printed.
pub open spec fn column_width(selected: bool, max: u64) -> usize {
    if selected { (decimal(max as nat).len() + 1) as usize } else { 0 }
}

/// Widths of the columns for `rs` and, when there is one, the total line.
pub open spec fn widths_of(sel: SelectedCounts, rs: Seq<(Option<String>, WcCounts)>, total: Option<WcCounts>) -> Widths {
    let m = match total {
        Some(t) => max_counts(max_of(rs), t),
        None => max_of(rs),
    };
    (
        column_width(sel.PrintLines, m.Lines),
        column_width(sel.PrintWords, m.Words),
        column_width(sel.PrintChars, m.Chars),
        column_width(sel.PrintBytes, m.Bytes),
        column_width(sel.PrintMaxLineLength, m.MaxLineLength),
    )
}

/// Raises each maximum to the matching count.
pub fn UpdateMaxes(MaxLines: &mut u64, MaxWords: &mut u64, MaxChars: &mut u64, MaxBytes: &mut u64, MaxMaxLine: &mut u64, Counts: WcCounts)
    ensures
        max_counts(
            WcCounts { Lines: *old(MaxLines), Words: *old(MaxWords), Chars: *old(MaxChars), Bytes: *old(MaxBytes), MaxLineLength: *old(MaxMaxLine) },
            Counts,
        ) == (WcCounts { Lines: *final(MaxLines), Words: *final(MaxWords), Chars: *final(MaxChars), Bytes: *final(MaxBytes), MaxLineLength: *final(MaxMaxLine) }),
{
    if Counts.Lines > *MaxLines {
        *MaxLines = Counts.Lines;
    }
    if Counts.Words > *MaxWords {
        *MaxWords = Counts.Words;
    }
    if Counts.Chars > *MaxChars {
        *MaxChars = Counts.Chars;
    }
    if Counts.Bytes > *MaxBytes {
        *MaxBytes = Counts.Bytes;
    }
    if Counts.MaxLineLength > *MaxMaxLine {
        *MaxMaxLine = Counts.MaxLineLength;
    }
}

/// Widths of the columns: for each printed count, one more than the digits of its largest
/// value over the results and the total.
pub fn ComputeWidths(Selected: SelectedCounts, Results: &[(Option<String>, WcCounts)], Total: Option<&WcCounts>) -> (w: Widths)
    ensures
        w == widths_of(Selected, Results@, match Total { Some(t) => Some(*t), None => None }),
{
    let mut MaxLines: u64 = 0;
    let mut MaxWords: u64 = 0;
    let mut MaxChars: u64 = 0;
    let mut MaxBytes: u64 = 0;
    let mut MaxMaxLine: u64 = 0;
    let mut i: usize = 0;
    while i < Results.len()
        invariant
            i <= Results@.len(),
            max_of(Results@.subrange(0, i as int)) == (WcCounts { Lines: MaxLines, Words: MaxWords, Chars: MaxChars, Bytes: MaxBytes, MaxLineLength: MaxMaxLine }),
        decreases Results@.len() - i,
    {
        assert(Results@.subrange(0, i + 1).drop_last() =~= Results@.subrange(0, i as int));
        UpdateMaxes(&mut MaxLines, &mut MaxWords, &mut MaxChars, &mut MaxBytes, &mut MaxMaxLine, Results[i].1);
        i = i + 1;
    }
    assert(Results@.subrange(0, Results@.len() as int) =~= Results@);
    match Total {
        Some(TotalCounts) => {
            UpdateMaxes(&mut MaxLines, &mut MaxWords, &mut MaxChars, &mut MaxBytes, &mut MaxMaxLine, *TotalCounts);
        },
        None => {},
    }
    let LinesWidth: usize = if Selected.PrintLines { DigitCount(MaxLines) + 1 } else { 0 };
    let WordsWidth: usize = if Selected.PrintWords { DigitCount(MaxWords) + 1 } else { 0 };
    let CharsWidth: usize = if Selected.PrintChars { DigitCount(MaxChars) + 1 } else { 0 };
    let BytesWidth: usize = if Selected.PrintBytes { DigitCount(MaxBytes) + 1 } else { 0 };
    let MaxLineWidth: usize = if Selected.PrintMaxLineLength { DigitCount(MaxMaxLine) + 1 } else { 0 };
    (LinesWidth, WordsWidth, CharsWidth, BytesWidth, MaxLineWidth)
}

/// The total line's counts.
pub open spec fn total_counts(rs: Seq<(Option<String>, WcCounts)>) -> WcCounts {
    let t = total_of(rs);
    WcCounts { Lines: t.lines as u64, Words: t.words as u64, Chars: t.chars as u64, Bytes: t.bytes as u64, MaxLineLength: t.max_line as u64 }
}

/// Whether any result has a name.
pub open spec fn has_names(rs: Seq<(Option<String>, WcCounts)>) -> bool {
    exists|i: int| 0 <= i < rs.len() && (#[trigger] rs[i]).0 is Some
}

/// The characters of a result's name.
pub open spec fn result_name(name: Option<String>) -> Option<Seq<char>> {
    match name {
        Some(n) => Some(n@),
        None => None,
    }
}

/// The lines printed for the results: one per result, then a total line when there are
/// several.
pub fn FormatResults(Selected: SelectedCounts, Results: &[(Option<String>, WcCounts)]) -> (Lines: Vec<String>)
    requires
        total_fits(Results@),
    ensures
        ({
            let rs = Results@;
            let total = if rs.len() > 1 { Some(total_counts(rs)) } else { None };
            let w = widths_of(Selected, rs, total);
            &&& Lines@.len() == rs.len() + if rs.len() > 1 { 1int } else { 0int }
            &&& forall|i: int| 0 <= i < rs.len() ==> (#[trigger] Lines@[i])@ == one_line(Selected, rs[i].1, result_name(rs[i].0), has_names(rs), w)
            &&& rs.len() > 1 ==> Lines@[rs.len() as int]@ == one_line(Selected, total_counts(rs), Some("total"@), true, w)
        }),
{
    let mut HasNames = false;
    let mut i: usize = 0;
    while i < Results.len()
        invariant
            i <= Results@.len(),
            HasNames == exists|j: int| 0 <= j < i && (#[trigger] Results@[j]).0 is Some,
        decreases Results@.len() - i,
    {
        if Results[i].0.is_some() {
            HasNames = true;
        }
        i = i + 1;
    }
    let NeedsTotal = Results.len() > 1;
    let Total: Option<WcCounts> = if NeedsTotal { Some(ComputeTotal(Results)) } else { None };
    let Widths = match &Total {
        Some(t) => ComputeWidths(Selected, Results, Some(t)),
        None => ComputeWidths(Selected, Results, None),
    };
    proof {
        lemma_total_nonneg(Results@);
        if NeedsTotal {
            assert(Total == Some(total_counts(Results@)));
        }
    }
    let mut Lines: Vec<String> = Vec::new();
    let mut i: usize = 0;
    while i < Results.len()
        invariant
            i <= Results@.len(),
            HasNames == has_names(Results@),
            Widths == widths_of(Selected, Results@, if Results@.len() > 1 { Some(total_counts(Results@)) } else { None }),
            Lines@.len() == i,
            forall|j: int| 0 <= j < i ==> (#[trigger] Lines@[j])@ == one_line(Selected, Results@[j].1, result_name(Results@[j].0), HasNames, Widths),
        decreases Results@.len() - i,
    {
        let Name: Option<&str> = match &Results[i].0 {
            Some(n) => Some(n.as_str()),
            None => None,
        };
        let Line = FormatOneLine(Selected, Results[i].1, Name, HasNames, Widths);
        Lines.push(Line);
        i = i + 1;
    }
    match Total {
        Some(TotalCounts) => {
            let Line = FormatOneLine(Selected, TotalCounts, Some("total"), true, Widths);
            Lines.push(Line);
        },
        None => {},
    }
    Lines
}

/// The counts printed when none is asked for: lines, words and bytes.
pub open spec fn effective_selection(s: SelectedCounts) -> SelectedCounts {
    if !s.PrintLines && !s.PrintWords && !s.PrintChars && !s.PrintBytes && !s.PrintMaxLineLength {
        SelectedCounts { PrintLines: true, PrintWords: true, PrintBytes: true, ..s }
    } else {
        s
    }
}

/// The selection, or lines, words and bytes when nothing is selected.
pub fn EffectiveSelection(Selected: SelectedCounts) -> (s: SelectedCounts)
    ensures
        s == effective_selection(Selected),
{
    let mut s = Selected;
    if !s.PrintLines && !s.PrintWords && !s.PrintChars && !s.PrintBytes && !s.PrintMaxLineLength {
        s.PrintLines = true;
        s.PrintWords = true;
        s.PrintBytes = true;
    }
    s
}

/// The selection after the long option `a`, or `None` when it names no count.
pub open spec fn long_flag(sel: SelectedCounts, a: Seq<char>) -> Option<SelectedCounts> {
    if a == "--bytes"@ {
        Some(SelectedCounts { PrintBytes: true, ..sel })
    } else if a == "--chars"@ {
        Some(SelectedCounts { PrintChars: true, ..sel })
    } else if a == "--lines"@ {
        Some(SelectedCounts { PrintLines: true, ..sel })
    } else if a == "--words"@ {
        Some(SelectedCounts { PrintWords: true, ..sel })
    } else if a == "--max-line-length"@ {
        Some(SelectedCounts { PrintMaxLineLength: true, ..sel })
    } else {
        None
    }
}

/// The message for an unknown long option.
pub open spec fn unrecognized_message(a: Seq<char>) -> Seq<char> {
    "wc: unrecognized option '"@ + a + "'"@
}

/// The message for an unknown short option.
pub open spec fn invalid_message(c: char) -> Seq<char> {
    "wc: invalid option -- '"@ + seq![c] + "'"@
}

/// Selects the count that the long option `Arg` names; refuses any other option.
pub fn ApplyLongFlag(Selected: &mut SelectedCounts, Arg: &str) -> (r: Result<(), String>)
    ensures
        match long_flag(*old(Selected), Arg@) {
            Some(s) => r is Ok && *final(Selected) == s,
            None => r matches Err(m) && m@ == unrecognized_message(Arg@) && *final(Selected) == *old(Selected),
        },
{
    if str_eq(Arg, "--bytes") {
        Selected.PrintBytes = true;
    } else if str_eq(Arg, "--chars") {
        Selected.PrintChars = true;
    } else if str_eq(Arg, "--lines") {
        Selected.PrintLines = true;
    } else if str_eq(Arg, "--words") {
        Selected.PrintWords = true;
    } else if str_eq(Arg, "--max-line-length") {
        Selected.PrintMaxLineLength = true;
    } else {
        let mut Message = String::from_str("wc: unrecognized option '");
        Message.append(Arg);
        Message.append("'");
        return Err(Message);
    }
    Ok(())
}

/// What the parser has gathered: the selection, the `--files0-from` source, the input
/// names, and whether help or the version was asked for.
pub struct ParseModel {
    pub selected: SelectedCounts,
    pub files0: Option<Seq<char>>,
    pub names: Seq<Seq<char>>,
    pub help: bool,
    pub version: bool,
}

/// The parser's state after the short option `c`, or `None` when `c` is not one.
pub open spec fn short_flag(st: ParseModel, c: char) -> Option<ParseModel> {
    let sel = st.selected;
    if c == 'c' {
        Some(ParseModel { selected: SelectedCounts { PrintBytes: true, ..sel }, ..st })
    } else if c == 'm' {
        Some(ParseModel { selected: SelectedCounts { PrintChars: true, ..sel }, ..st })
    } else if c == 'l' {
        Some(ParseModel { selected: SelectedCounts { PrintLines: true, ..sel }, ..st })
    } else if c == 'w' {
        Some(ParseModel { selected: SelectedCounts { PrintWords: true, ..sel }, ..st })
    } else if c == 'L' {
        Some(ParseModel { selected: SelectedCounts { PrintMaxLineLength: true, ..sel }, ..st })
    } else if c == 'h' {
        Some(ParseModel { help: true, ..st })
    } else if c == 'V' {
        Some(ParseModel { version: true, ..st })
    } else {
        None
    }
}

/// The parser's state after the short options `cs` one by one, or the first that is not one.
pub open spec fn short_flags(st: ParseModel, cs: Seq<char>) -> Result<ParseModel, char>
    decreases cs.len(),
{
    if cs.len() == 0 {
        Ok(st)
    } else {
        match short_flag(st, cs[0]) {
            Some(st1) => short_flags(st1, cs.drop_first()),
            None => Err(cs[0]),
        }
    }
}

/// Applies the short option `FlagChar`; refuses any other character.
pub fn ApplyShortFlag(Selected: &mut SelectedCounts, FlagChar: char, ShowHelp: &mut bool, ShowVersion: &mut bool) -> (r: Result<(), String>)
    ensures
        ({
            let st = ParseModel { selected: *old(Selected), files0: None, names: seq![], help: *old(ShowHelp), version: *old(ShowVersion) };
            match short_flag(st, FlagChar) {
                Some(st2) => r is Ok && *final(Selected) == st2.selected && *final(ShowHelp) == st2.help && *final(ShowVersion) == st2.version,
                None => r matches Err(m) && m@ == invalid_message(FlagChar) && *final(Selected) == *old(Selected)
                    && *final(ShowHelp) == *old(ShowHelp) && *final(ShowVersion) == *old(ShowVersion),
            }
        }),
{
    match FlagChar {
        'c' => Selected.PrintBytes = true,
        'm' => Selected.PrintChars = true,
        'l' => Selected.PrintLines = true,
        'w' => Selected.PrintWords = true,
        'L' => Selected.PrintMaxLineLength = true,
        'h' => *ShowHelp = true,
        'V' => *ShowVersion = true,
        _ => {
            let mut Message = String::from_str("wc: invalid option -- '");
            push_char(&mut Message, FlagChar);
            Message.append("'");
            return Err(Message);
        },
    }
    Ok(())
}

/// The message when `--files0-from` ends the arguments.
pub open spec fn requires_argument_message() -> Seq<char> {
    "wc: option '--files0-from' requires an argument"@
}

/// The message when `--files0-from` comes with input names.
pub open spec fn cannot_combine_message() -> Seq<char> {
    "wc: cannot combine --files0-from with FILE arguments"@
}

/// What parsing the arguments from position `i` on, with state `st`, gives: the final
/// state, or the message of the first error.
pub open spec fn parse_from(args: Seq<Seq<char>>, i: int, st: ParseModel) -> Result<ParseModel, Seq<char>>
    decreases args.len() - i,
{
    if i >= args.len() || i < 0 {
        if st.files0 is Some && st.names.len() > 0 { Err(cannot_combine_message()) } else { Ok(st) }
    } else {
        let a = args[i];
        if a == "--help"@ {
            parse_from(args, i + 1, ParseModel { help: true, ..st })
        } else if a == "--version"@ {
            parse_from(args, i + 1, ParseModel { version: true, ..st })
        } else if is_prefix("--files0-from="@, a) {
            parse_from(args, i + 1, ParseModel { files0: Some(a.subrange("--files0-from="@.len() as int, a.len() as int)), ..st })
        } else if a == "--files0-from"@ {
            if i + 1 >= args.len() {
                Err(requires_argument_message())
            } else {
                parse_from(args, i + 2, ParseModel { files0: Some(args[i + 1]), ..st })
            }
        } else if is_prefix("--"@, a) {
            match long_flag(st.selected, a) {
                Some(sel) => parse_from(args, i + 1, ParseModel { selected: sel, ..st }),
                None => Err(unrecognized_message(a)),
            }
        } else if is_prefix("-"@, a) && a != "-"@ {
            match short_flags(st, a.drop_first()) {
                Ok(st1) => parse_from(args, i + 1, st1),
                Err(c) => Err(invalid_message(c)),
            }
        } else {
            parse_from(args, i + 1, ParseModel { names: st.names.push(a), ..st })
        }
    }
}

/// The parser's state before any argument.
pub open spec fn initial_parse() -> ParseModel {
    ParseModel {
        selected: SelectedCounts { PrintLines: false, PrintWords: false, PrintChars: false, PrintBytes: false, PrintMaxLineLength: false },
        files0: None,
        names: seq![],
        help: false,
        version: false,
    }
}

/// The characters of each argument.
pub open spec fn strings_view(v: Seq<String>) -> Seq<Seq<char>> {
    Seq::new(v.len(), |i: int| v[i]@)
}

/// What the command line asks for.
pub struct ParsedArguments {
    pub Selected: SelectedCounts,
    pub Files0From: Option<String>,
    pub InputNames: Vec<String>,
    pub ShowHelp: bool,
    pub ShowVersion: bool,
}

/// The characters of an optional string.
pub open spec fn opt_view(s: Option<String>) -> Option<Seq<char>> {
    match s {
        Some(v) => Some(v@),
        None => None,
    }
}

impl ParsedArguments {
    pub open spec fn model(&self) -> ParseModel {
        ParseModel {
            selected: self.Selected,
            files0: opt_view(self.Files0From),
            names: strings_view(self.InputNames@),
            help: self.ShowHelp,
            version: self.ShowVersion,
        }
    }
}

proof fn lemma_strings_view_push(v: Seq<String>, s: String)
    ensures
        strings_view(v.push(s)) == strings_view(v).push(s@),
{
    assert(strings_view(v.push(s)) =~= strings_view(v).push(s@));
}

/// Reads the command line: `--help`, `--version`, `--files0-from=F` or `--files0-from F`,
/// the long options of the counts, bundles of short options after `-`, and input names
/// (`-` is a name). Refuses an unknown option, `--files0-from` without its argument, and
/// `--files0-from` together with input names, with the message that `wc` prints.
pub fn ParseArguments(Arguments: Vec<String>) -> (r: Result<ParsedArguments, String>)
    ensures
        match parse_from(strings_view(Arguments@), 0, initial_parse()) {
            Ok(m) => r matches Ok(p) && p.model() == m,
            Err(msg) => r matches Err(e) && e@ == msg,
        },
{
    let ghost args = strings_view(Arguments@);
    let mut Selected = SelectedCounts::none();
    let mut Files0From: Option<String> = None;
    let mut InputNames: Vec<String> = Vec::new();
    let mut ShowHelp: bool = false;
    let mut ShowVersion: bool = false;
    let mut Index: usize = 0;
    assert(strings_view(InputNames@) =~= seq![]);
    while Index < Arguments.len()
        invariant
            args == strings_view(Arguments@),
            Index <= Arguments@.len(),
            parse_from(args, 0, initial_parse()) == parse_from(
                args,
                Index as int,
                ParseModel { selected: Selected, files0: opt_view(Files0From), names: strings_view(InputNames@), help: ShowHelp, version: ShowVersion },
            ),
        decreases Arguments@.len() - Index,
    {
        let Arg: &str = Arguments[Index].as_str();
        let ghost st = ParseModel { selected: Selected, files0: opt_view(Files0From), names: strings_view(InputNames@), help: ShowHelp, version: ShowVersion };
        assert(Arg@ == args[Index as int]);
        if str_eq(Arg, "--help") {
            ShowHelp = true;
            Index = Index + 1;
            continue;
        }
        if str_eq(Arg, "--version") {
            ShowVersion = true;
            Index = Index + 1;
            continue;
        }
        let Prefix = "--files0-from=";
        if starts_with(Arg, Prefix) {
            let Value = Arg.substring_char(Prefix.unicode_len(), Arg.unicode_len());
            Files0From = Some(String::from_str(Value));
            Index = Index + 1;
            continue;
        }
        if str_eq(Arg, "--files0-from") {
            if Index + 1 >= Arguments.len() {
                return Err(String::from_str("wc: option '--files0-from' requires an argument"));
            }
            Files0From = Some(Arguments[Index + 1].clone());
            Index = Index + 2;
            continue;
        }
        if starts_with(Arg, "--") {
            match ApplyLongFlag(&mut Selected, Arg) {
                Ok(()) => {},
                Err(Message) => {
                    assert(long_flag(st.selected, Arg@) is None);
                    assert(parse_from(args, Index as int, st) == Err::<ParseModel, Seq<char>>(unrecognized_message(Arg@)));
                    return Err(Message);
                },
            }
            Index = Index + 1;
            continue;
        }
        if starts_with(Arg, "-") && !str_eq(Arg, "-") {
            proof {
                reveal_strlit("-");
            }
            let Chars = str_chars(Arg);
            let mut k: usize = 1;
            assert(Arg@.drop_first().subrange(0, Arg@.len() - 1) =~= Arg@.drop_first());
            assert(parse_from(args, Index as int, st) == match short_flags(st, Arg@.drop_first()) {
                Ok(st1) => parse_from(args, Index + 1, st1),
                Err(c) => Err(invalid_message(c)),
            });
            while k < Chars.len()
                invariant
                    1 <= k <= Chars@.len(),
                    Chars@ == Arg@,
                    opt_view(Files0From) == st.files0,
                    strings_view(InputNames@) == st.names,
                    args == strings_view(Arguments@),
                    Index < Arguments@.len(),
                    parse_from(args, 0, initial_parse()) == parse_from(args, Index as int, st),
                    parse_from(args, Index as int, st) == match short_flags(st, Arg@.drop_first()) {
                        Ok(st1) => parse_from(args, Index + 1, st1),
                        Err(c) => Err(invalid_message(c)),
                    },
                    short_flags(st, Arg@.drop_first()) == short_flags(
                        ParseModel { selected: Selected, help: ShowHelp, version: ShowVersion, ..st },
                        Arg@.drop_first().subrange(k - 1, Arg@.len() - 1),
                    ),
                decreases Chars@.len() - k,
            {
                let ghost before = ParseModel { selected: Selected, help: ShowHelp, version: ShowVersion, ..st };
                match ApplyShortFlag(&mut Selected, Chars[k], &mut ShowHelp, &mut ShowVersion) {
                    Ok(()) => {},
                    Err(Message) => {
                        assert(Arg@.drop_first().subrange(k - 1, Arg@.len() - 1)[0] == Chars@[k as int]);
                        return Err(Message);
                    },
                }
                proof {
                    assert(Arg@.drop_first().subrange(k - 1, Arg@.len() - 1)[0] == Chars@[k as int]);
                    assert(Arg@.drop_first().subrange(k - 1, Arg@.len() - 1).drop_first()
                        =~= Arg@.drop_first().subrange(k as int, Arg@.len() - 1));
                }
                k = k + 1;
            }
            assert(Arg@.drop_first().subrange(k - 1, Arg@.len() - 1) =~= seq![]);
            Index = Index + 1;
            continue;
        }
        let ghost names0 = InputNames@;
        InputNames.push(String::from_str(Arg));
        proof {
            lemma_strings_view_push(names0, InputNames@.last());
        }
        Index = Index + 1;
    }
    if Files0From.is_some() && InputNames.len() > 0 {
        return Err(String::from_str("wc: cannot combine --files0-from with FILE arguments"));
    }
    Ok(ParsedArguments { Selected, Files0From, InputNames, ShowHelp, ShowVersion })
}

/// The parts of `bytes` between NUL bytes (what `split(|b| *b == 0)` gives).
pub open spec fn split_nul(bytes: Seq<u8>) -> Seq<Seq<u8>>
    decreases bytes.len(),
{
    if bytes.len() == 0 {
        seq![seq![]]
    } else {
        let parts = split_nul(bytes.drop_last());
        if bytes.last() == 0 {
            parts.push(seq![])
        } else {
            parts.update(parts.len() - 1, parts.last().push(bytes.last()))
        }
    }
}

proof fn lemma_split_nul_nonempty(bytes: Seq<u8>)
    ensures
        split_nul(bytes).len() >= 1,
    decreases bytes.len(),
{
    if bytes.len() > 0 {
        lemma_split_nul_nonempty(bytes.drop_last());
    }
}

/// The name a part stands for: its text, decoded as `String::from_utf8_lossy` does,
/// without leading and trailing white space.
pub open spec fn part_name(part: Seq<u8>) -> Seq<char> {
    trim(utf8_lossy(part))
}

/// The names of the non-empty parts whose name is not empty, in order.
pub open spec fn kept_names(parts: Seq<Seq<u8>>) -> Seq<Seq<char>>
    decreases parts.len(),
{
    if parts.len() == 0 {
        seq![]
    } else {
        let p = parts.last();
        kept_names(parts.drop_last()) + if p.len() > 0 && part_name(p).len() > 0 { seq![part_name(p)] } else { seq![] }
    }
}

/// The input names that a `--files0-from` source holds: its NUL-separated parts, each
/// decoded and trimmed, empty ones left out.
pub open spec fn files0_names(bytes: Seq<u8>) -> Seq<Seq<char>> {
    kept_names(split_nul(bytes))
}

/// Adds the name of `Part` to `Names` when the part and its name are not empty.
fn keep_name(Names: &mut Vec<String>, Part: &[u8])
    ensures
        strings_view(final(Names)@) == strings_view(old(Names)@) + if Part@.len() > 0 && part_name(Part@).len() > 0 {
            seq![part_name(Part@)]
        } else {
            seq![]
        },
{
    if Part.len() > 0 {
        let Text = decode_lossy(Part);
        let Trimmed = trim_chars(Text.as_slice());
        if Trimmed.len() > 0 {
            let ghost before = Names@;
            Names.push(string_from_chars(Trimmed.as_slice()));
            assert(strings_view(Names@) =~= strings_view(before) + seq![part_name(Part@)]);
            return;
        }
    }
    assert(strings_view(Names@) =~= strings_view(old(Names)@) + seq![]);
}

/// The input names held by the contents of a `--files0-from` source.
pub fn NamesFromFiles0(Bytes: &[u8]) -> (Names: Vec<String>)
    ensures
        strings_view(Names@) == files0_names(Bytes@),
{
    let mut Names: Vec<String> = Vec::new();
    let mut Current: Vec<u8> = Vec::new();
    let mut i: usize = 0;
    assert(strings_view(Names@) =~= seq![]);
    while i < Bytes.len()
        invariant
            i <= Bytes@.len(),
            split_nul(Bytes@.subrange(0, i as int)).len() >= 1,
            Current@ == split_nul(Bytes@.subrange(0, i as int)).last(),
            strings_view(Names@) == kept_names(split_nul(Bytes@.subrange(0, i as int)).drop_last()),
        decreases Bytes@.len() - i,
    {
        let ghost pre = Bytes@.subrange(0, i as int);
        let ghost parts = split_nul(pre);
        assert(Bytes@.subrange(0, i + 1).drop_last() =~= pre);
        if Bytes[i] == 0u8 {
            keep_name(&mut Names, Current.as_slice());
            proof {
                assert(parts.drop_last() =~= parts.subrange(0, parts.len() - 1));
                assert(split_nul(Bytes@.subrange(0, i + 1)).drop_last() =~= parts);
            }
            Current = Vec::new();
        } else {
            Current.push(Bytes[i]);
            proof {
                assert(split_nul(Bytes@.subrange(0, i + 1)).drop_last() =~= parts.drop_last());
            }
        }
        i = i + 1;
    }
    let ghost parts = split_nul(Bytes@);
    assert(Bytes@.subrange(0, Bytes@.len() as int) =~= Bytes@);
    keep_name(&mut Names, Current.as_slice());
    assert(parts =~= parts.drop_last().push(parts.last()));
    assert(parts.drop_last().push(parts.last()).drop_last() =~= parts.drop_last());
    Names
}

/// The bytes of standard input, read at most once: the cached bytes when there are some,
/// else `FreshRead` (which the caller reads only when nothing is cached), kept when it is
/// the bytes, passed on when it is an error.
pub fn GetOrReadStdin(StdinCache: &mut Option<Vec<u8>>, FreshRead: Option<Result<Vec<u8>, String>>) -> (r: Result<Vec<u8>, String>)
    requires
        *old(StdinCache) is None ==> FreshRead is Some,
    ensures
        match *old(StdinCache) {
            Some(c) => r matches Ok(b) && b@ == c@ && *final(StdinCache) == *old(StdinCache),
            None => match FreshRead.unwrap() {
                Ok(b) => (r matches Ok(x) && x@ == b@) && (*final(StdinCache) matches Some(c) && c@ == b@),
                Err(e) => r == Err::<Vec<u8>, String>(e) && *final(StdinCache) is None,
            },
        },
{
    match StdinCache {
        Some(Cached) => {
            let Copy = Cached.clone();
            assert(Copy@ =~= Cached@);
            return Ok(Copy);
        },
        None => {},
    }
    match FreshRead {
        Some(Ok(Bytes)) => {
            let Copy = Bytes.clone();
            assert(Copy@ =~= Bytes@);
            *StdinCache = Some(Copy);
            Ok(Bytes)
        },
        Some(Err(Message)) => Err(Message),
        None => Err(String::new()),
    }
}

/// Line feeds, words and bytes of `Text`.
pub struct TextCounts {
    pub Lines: u64,
    pub Words: u64,
    pub Bytes: u64,
}

/// Counts the line feeds, the words and the bytes of `Text`.
pub fn WcTextCounts(Text: &str) -> (c: TextCounts)
    ensures
        c.Lines == count_byte(Text.spec_bytes(), 10),
        c.Words == word_count(Text@),
        c.Bytes == Text.spec_bytes().len(),
{
    let Bytes = Text.as_bytes();
    let Lines = CountByte(Bytes, 10u8);
    let Chars = str_chars(Text);
    let Words = WordCount(Chars.as_slice());
    TextCounts { Lines, Words, Bytes: Bytes.len() as u64 }
}

proof fn lemma_decimal_len_monotone(a: nat, b: nat)
    requires
        a <= b,
    ensures
        decimal(a).len() <= decimal(b).len(),
    decreases b,
{
    if a >= 10 {
        lemma_decimal_len_monotone(a / 10, b / 10);
    }
}

/// Columns line up: every value up to the largest one of a column fills exactly the
/// column's width, one more than the digits of the largest value.
pub proof fn law_columns_aligned(v: u64, max: u64)
    requires
        v <= max,
    ensures
        right_aligned(v, column_width(true, max) as int).len() == column_width(true, max),
        right_aligned(v, column_width(true, max) as int).last() == decimal(v as nat).last(),
{
    lemma_decimal_len_monotone(v as nat, max as nat);
    lemma_decimal_u64(max);
    lemma_decimal_u64(v);
}

/// The branch that the parser takes for an argument other than the bare `--files0-from`:
/// 0 `--help`, 1 `--version`, 2 `--files0-from=F`, 3 another long option, 4 a bundle of
/// short options, 5 an input name.
pub open spec fn arg_kind(a: Seq<char>) -> int {
    if a == "--help"@ {
        0
    } else if a == "--version"@ {
        1
    } else if is_prefix("--files0-from="@, a) {
        2
    } else if is_prefix("--"@, a) {
        3
    } else if is_prefix("-"@, a) && a != "-"@ {
        4
    } else {
        5
    }
}

/// What the parser does with one argument other than the bare `--files0-from`.
pub open spec fn arg_step(st: ParseModel, a: Seq<char>) -> Result<ParseModel, Seq<char>> {
    let k = arg_kind(a);
    if k == 0 {
        Ok(ParseModel { help: true, ..st })
    } else if k == 1 {
        Ok(ParseModel { version: true, ..st })
    } else if k == 2 {
        Ok(ParseModel { files0: Some(a.subrange("--files0-from="@.len() as int, a.len() as int)), ..st })
    } else if k == 3 {
        match long_flag(st.selected, a) {
            Some(sel) => Ok(ParseModel { selected: sel, ..st }),
            None => Err(unrecognized_message(a)),
        }
    } else if k == 4 {
        match short_flags(st, a.drop_first()) {
            Ok(st1) => Ok(st1),
            Err(c) => Err(invalid_message(c)),
        }
    } else {
        Ok(ParseModel { names: st.names.push(a), ..st })
    }
}

/// The parser's state after the first `i` arguments, none of them the bare `--files0-from`.
pub open spec fn state_at(args: Seq<Seq<char>>, i: int, st: ParseModel) -> Result<ParseModel, Seq<char>>
    decreases i,
{
    if i <= 0 {
        Ok(st)
    } else {
        match state_at(args, i - 1, st) {
            Ok(s) => arg_step(s, args[i - 1]),
            Err(e) => Err(e),
        }
    }
}

proof fn lemma_parse_step(args: Seq<Seq<char>>, i: int, st: ParseModel)
    requires
        0 <= i < args.len(),
        args[i] != "--files0-from"@,
    ensures
        parse_from(args, i, st) == match arg_step(st, args[i]) {
            Ok(s) => parse_from(args, i + 1, s),
            Err(e) => Err(e),
        },
{
}

proof fn lemma_parse_prefix(args: Seq<Seq<char>>, i: int, st: ParseModel)
    requires
        0 <= i <= args.len(),
        forall|j: int| 0 <= j < i ==> #[trigger] args[j] != "--files0-from"@,
    ensures
        parse_from(args, 0, st) == match state_at(args, i, st) {
            Ok(s) => parse_from(args, i, s),
            Err(e) => Err(e),
        },
    decreases i,
{
    if i > 0 {
        lemma_parse_prefix(args, i - 1, st);
        match state_at(args, i - 1, st) {
            Ok(s) => {
                lemma_parse_step(args, i - 1, s);
            },
            Err(e) => {},
        }
    }
}

proof fn lemma_parse_shift(a: Seq<Seq<char>>, i: int, b: Seq<Seq<char>>, j: int, st: ParseModel)
    requires
        0 <= i,
        0 <= j,
        a.len() - i == b.len() - j,
        forall|t: int| 0 <= t < a.len() - i ==> #[trigger] a[i + t] == b[j + t],
    ensures
        parse_from(a, i, st) == parse_from(b, j, st),
    decreases a.len() - i,
{
    if i < a.len() {
        assert(a[i + 0] == b[j + 0]);
        assert forall|t: int| 0 <= t < a.len() - (i + 1) implies #[trigger] a[(i + 1) + t] == b[(j + 1) + t] by {
            let u = t + 1;
            assert(a[i + u] == b[j + u]);
        }
        let x = a[i];
        if x == "--files0-from"@ && i + 1 < a.len() {
            assert(a[i + 1] == b[j + 1]);
            assert forall|t: int| 0 <= t < a.len() - (i + 2) implies #[trigger] a[(i + 2) + t] == b[(j + 2) + t] by {
                let u = t + 1;
                assert(a[(i + 1) + u] == b[(j + 1) + u]);
            }
            lemma_parse_shift(a, i + 2, b, j + 2, ParseModel { files0: Some(a[i + 1]), ..st });
        }
        lemma_parse_shift(a, i + 1, b, j + 1, ParseModel { help: true, ..st });
        lemma_parse_shift(a, i + 1, b, j + 1, ParseModel { version: true, ..st });
        lemma_parse_shift(a, i + 1, b, j + 1, ParseModel { files0: Some(x.subrange("--files0-from="@.len() as int, x.len() as int)), ..st });
        lemma_parse_shift(a, i + 1, b, j + 1, ParseModel { names: st.names.push(x), ..st });
        match long_flag(st.selected, x) {
            Some(sel) => lemma_parse_shift(a, i + 1, b, j + 1, ParseModel { selected: sel, ..st }),
            None => {},
        }
        match short_flags(st, x.drop_first()) {
            Ok(st1) => lemma_parse_shift(a, i + 1, b, j + 1, st1),
            Err(c) => {},
        }
    }
}

proof fn lemma_parse_suffix(a: Seq<Seq<char>>, b: Seq<Seq<char>>, i: int, st: ParseModel)
    requires
        0 <= i,
        a.len() == b.len(),
        forall|j: int| i <= j < a.len() ==> #[trigger] a[j] == b[j],
    ensures
        parse_from(a, i, st) == parse_from(b, i, st),
{
    assert forall|t: int| 0 <= t < a.len() - i implies #[trigger] a[i + t] == b[i + t] by {
        assert(a[i + t] == b[i + t]);
    }
    lemma_parse_shift(a, i, b, i, st);
}

proof fn lemma_state_prefix(a: Seq<Seq<char>>, b: Seq<Seq<char>>, i: int, st: ParseModel)
    requires
        0 <= i,
        forall|j: int| 0 <= j < i ==> #[trigger] a[j] == b[j],
    ensures
        state_at(a, i, st) == state_at(b, i, st),
    decreases i,
{
    if i > 0 {
        lemma_state_prefix(a, b, i - 1, st);
        assert(a[i - 1] == b[i - 1]);
    }
}

/// Whether `c` is one of the short options.
pub open spec fn is_short_option(c: char) -> bool {
    c == 'c' || c == 'm' || c == 'l' || c == 'w' || c == 'L' || c == 'h' || c == 'V'
}

/// The parser's state after the short options `cs`, all valid, in any order.
pub open spec fn shorts_applied(st: ParseModel, cs: Seq<char>) -> ParseModel {
    ParseModel {
        selected: SelectedCounts {
            PrintBytes: st.selected.PrintBytes || cs.contains('c'),
            PrintChars: st.selected.PrintChars || cs.contains('m'),
            PrintLines: st.selected.PrintLines || cs.contains('l'),
            PrintWords: st.selected.PrintWords || cs.contains('w'),
            PrintMaxLineLength: st.selected.PrintMaxLineLength || cs.contains('L'),
        },
        help: st.help || cs.contains('h'),
        version: st.version || cs.contains('V'),
        ..st
    }
}

proof fn lemma_short_flags_closed(st: ParseModel, cs: Seq<char>)
    ensures
        (forall|i: int| 0 <= i < cs.len() ==> is_short_option(#[trigger] cs[i])) ==> short_flags(st, cs) == Ok::<ParseModel, char>(shorts_applied(st, cs)),
        !(forall|i: int| 0 <= i < cs.len() ==> is_short_option(#[trigger] cs[i])) ==> short_flags(st, cs) is Err,
    decreases cs.len(),
{
    if cs.len() == 0 {
        assert(shorts_applied(st, cs) == st);
    } else {
        let c = cs[0];
        let rest = cs.drop_first();
        assert forall|ch: char| cs.contains(ch) == (c == ch || rest.contains(ch)) by {
            if cs.contains(ch) {
                let j = choose|j: int| 0 <= j < cs.len() && cs[j] == ch;
                if j > 0 {
                    assert(rest[j - 1] == ch);
                }
            }
            if rest.contains(ch) {
                let j = choose|j: int| 0 <= j < rest.len() && rest[j] == ch;
                assert(cs[j + 1] == ch);
            }
            assert(cs[0] == c);
        }
        if is_short_option(c) {
            let st1 = short_flag(st, c).unwrap();
            lemma_short_flags_closed(st1, rest);
            if forall|i: int| 0 <= i < cs.len() ==> is_short_option(#[trigger] cs[i]) {
                assert forall|i: int| 0 <= i < rest.len() implies is_short_option(#[trigger] rest[i]) by {
                    assert(rest[i] == cs[i + 1]);
                }
                assert(shorts_applied(st1, rest) == shorts_applied(st, cs));
            } else {
                let j = choose|j: int| 0 <= j < cs.len() && !is_short_option(#[trigger] cs[j]);
                assert(j > 0);
                assert(rest[j - 1] == cs[j]);
            }
        } else {
            assert(!is_short_option(cs[0]));
        }
    }
}

proof fn lemma_step_ok_independent(s1: ParseModel, s2: ParseModel, a: Seq<char>)
    ensures
        arg_step(s1, a) is Ok <==> arg_step(s2, a) is Ok,
{
    lemma_short_flags_closed(s1, a.drop_first());
    lemma_short_flags_closed(s2, a.drop_first());
}

/// Two arguments that are not both input names and not both `--files0-from=F` give the same
/// state in either order.
#[verifier::spinoff_prover]
#[verifier::rlimit(100)]
proof fn lemma_steps_commute(st: ParseModel, x: Seq<char>, y: Seq<char>)
    requires
        !(arg_kind(x) == 5 && arg_kind(y) == 5),
        !(arg_kind(x) == 2 && arg_kind(y) == 2),
        arg_step(st, x) is Ok,
        arg_step(arg_step(st, x)->Ok_0, y) is Ok,
    ensures
        arg_step(st, y) is Ok,
        arg_step(arg_step(st, y)->Ok_0, x) == arg_step(arg_step(st, x)->Ok_0, y),
{
    let sx = arg_step(st, x)->Ok_0;
    lemma_step_ok_independent(sx, st, y);
    let sy = arg_step(st, y)->Ok_0;
    lemma_step_ok_independent(sy, st, x);
    lemma_short_flags_closed(st, x.drop_first());
    lemma_short_flags_closed(st, y.drop_first());
    lemma_short_flags_closed(sx, y.drop_first());
    lemma_short_flags_closed(sy, x.drop_first());
    let sxy = arg_step(sx, y)->Ok_0;
    let syx = arg_step(sy, x)->Ok_0;
    assert(sxy.names =~= syx.names);
    assert(sxy == syx);
}

/// The arguments with those at `k` and `k + 1` swapped.
pub open spec fn swapped(args: Seq<Seq<char>>, k: int) -> Seq<Seq<char>> {
    args.update(k, args[k + 1]).update(k + 1, args[k])
}

/// Options can be given in any order: swapping two neighbouring arguments, when they are not
/// both input names and not both `--files0-from=F` (and the bare `--files0-from` is not used),
/// leaves a successful parse unchanged. Flags gather as a set, and the input names keep
/// their order.
pub proof fn law_options_commute(args: Seq<Seq<char>>, k: int)
    requires
        0 <= k,
        k + 1 < args.len(),
        forall|j: int| 0 <= j < args.len() ==> #[trigger] args[j] != "--files0-from"@,
        !(arg_kind(args[k]) == 5 && arg_kind(args[k + 1]) == 5),
        !(arg_kind(args[k]) == 2 && arg_kind(args[k + 1]) == 2),
        parse_from(args, 0, initial_parse()) is Ok,
    ensures
        parse_from(swapped(args, k), 0, initial_parse()) == parse_from(args, 0, initial_parse()),
{
    let b = swapped(args, k);
    let st0 = initial_parse();
    assert(forall|j: int| 0 <= j < b.len() ==> #[trigger] b[j] != "--files0-from"@) by {
        assert forall|j: int| 0 <= j < b.len() implies #[trigger] b[j] != "--files0-from"@ by {
            if j == k {
                assert(b[j] == args[k + 1]);
            } else if j == k + 1 {
                assert(b[j] == args[k]);
            } else {
                assert(b[j] == args[j]);
            }
        }
    }
    lemma_parse_prefix(args, k, st0);
    lemma_parse_prefix(b, k, st0);
    lemma_state_prefix(args, b, k, st0);
    match state_at(args, k, st0) {
        Ok(s) => {
            let x = args[k];
            let y = args[k + 1];
            assert(b[k] == y && b[k + 1] == x);
            lemma_parse_step(args, k, s);
            lemma_parse_step(b, k, s);
            if arg_step(s, x) is Ok {
                let sx = arg_step(s, x)->Ok_0;
                lemma_parse_step(args, k + 1, sx);
                if arg_step(sx, y) is Ok {
                    lemma_steps_commute(s, x, y);
                    let sy = arg_step(s, y)->Ok_0;
                    lemma_parse_step(b, k + 1, sy);
                    lemma_parse_suffix(args, b, k + 2, arg_step(sx, y)->Ok_0);
                }
            }
        },
        Err(e) => {},
    }
}

/// The arguments with the bare `--files0-from` at `k` and its value joined into one
/// `--files0-from=F`.
pub open spec fn joined(args: Seq<Seq<char>>, k: int) -> Seq<Seq<char>> {
    args.subrange(0, k).push("--files0-from="@ + args[k + 1]) + args.subrange(k + 2, args.len() as int)
}

/// `--files0-from F` means `--files0-from=F`: joining the first bare `--files0-from` with its
/// value changes nothing in the parse. `law_argument_order` joins every bare form this way
/// before it compares two command lines.
pub proof fn law_files0_forms_agree(args: Seq<Seq<char>>, k: int)
    requires
        0 <= k,
        k + 1 < args.len(),
        args[k] == "--files0-from"@,
        forall|j: int| 0 <= j < k ==> #[trigger] args[j] != "--files0-from"@,
    ensures
        parse_from(joined(args, k), 0, initial_parse()) == parse_from(args, 0, initial_parse()),
{
    let b = joined(args, k);
    let st0 = initial_parse();
    let v = "--files0-from="@ + args[k + 1];
    assert(b.len() == args.len() - 1);
    assert(b[k] == v);
    assert forall|j: int| 0 <= j < k implies #[trigger] b[j] != "--files0-from"@ && b[j] == args[j] by {
        assert(b[j] == args[j]);
    }
    lemma_parse_prefix(args, k, st0);
    lemma_parse_prefix(b, k, st0);
    lemma_state_prefix(args, b, k, st0);
    reveal_strlit("--files0-from=");
    reveal_strlit("--files0-from");
    reveal_strlit("--help");
    reveal_strlit("--version");
    assert(v.len() >= 14);
    assert(v != "--help"@) by {
        assert("--help"@.len() == 6);
    }
    assert(v != "--version"@) by {
        assert("--version"@.len() == 9);
    }
    assert(v != "--files0-from"@) by {
        assert(v[13] == '=');
        assert("--files0-from"@.len() == 13);
    }
    assert(v.subrange(0, "--files0-from="@.len() as int) =~= "--files0-from="@);
    assert(is_prefix("--files0-from="@, v));
    assert(v.subrange("--files0-from="@.len() as int, v.len() as int) =~= args[k + 1]);
    match state_at(args, k, st0) {
        Ok(s) => {
            lemma_parse_step(b, k, s);
            let s1 = ParseModel { files0: Some(args[k + 1]), ..s };
            assert forall|t: int| 0 <= t < args.len() - (k + 2) implies #[trigger] args[k + 2 + t] == b[k + 1 + t] by {
                assert(b[k + 1 + t] == args[k + 2 + t]);
            }
            lemma_parse_shift(args, k + 2, b, k + 1, s1);
        },
        Err(e) => {},
    }
}

/// The value of `--files0-from=F`: the text after the `=`.
pub open spec fn files0_value(a: Seq<char>) -> Seq<char> {
    a.subrange("--files0-from="@.len() as int, a.len() as int)
}

/// Whether `a` is a bundle of short options that holds `c`.
pub open spec fn bundle_has(a: Seq<char>, c: char) -> bool {
    arg_kind(a) == 4 && a.drop_first().contains(c)
}

/// Whether `a` selects the count whose long option is `long` and short option is `c`.
pub open spec fn selects(a: Seq<char>, long: Seq<char>, c: char) -> bool {
    (arg_kind(a) == 3 && a == long) || bundle_has(a, c)
}

/// Whether `a` asks for the help text.
pub open spec fn asks_help(a: Seq<char>) -> bool {
    arg_kind(a) == 0 || bundle_has(a, 'h')
}

/// Whether `a` asks for the version.
pub open spec fn asks_version(a: Seq<char>) -> bool {
    arg_kind(a) == 1 || bundle_has(a, 'V')
}

/// Whether some argument of `args` has property `f`.
pub open spec fn some_arg(args: Seq<Seq<char>>, f: spec_fn(Seq<char>) -> bool) -> bool {
    exists|i: int| 0 <= i < args.len() && #[trigger] f(args[i])
}

/// The input names among `args`, in order.
pub open spec fn names_of(args: Seq<Seq<char>>) -> Seq<Seq<char>>
    decreases args.len(),
{
    if args.len() == 0 {
        seq![]
    } else if arg_kind(args.last()) == 5 {
        names_of(args.drop_last()).push(args.last())
    } else {
        names_of(args.drop_last())
    }
}

/// The `--files0-from` source after `args`, starting from `cur`: the value of the last
/// `--files0-from=F`, or `cur` when there is none.
pub open spec fn files0_after(args: Seq<Seq<char>>, cur: Option<Seq<char>>) -> Option<Seq<char>>
    decreases args.len(),
{
    if args.len() == 0 {
        cur
    } else if arg_kind(args.last()) == 2 {
        Some(files0_value(args.last()))
    } else {
        files0_after(args.drop_last(), cur)
    }
}

/// The selection after arguments of which `some(long, c)` tells whether one selects the
/// count with long option `long` and short option `c`.
pub open spec fn selection_after(sel: SelectedCounts, args: Seq<Seq<char>>) -> SelectedCounts {
    SelectedCounts {
        PrintBytes: sel.PrintBytes || some_arg(args, |a: Seq<char>| selects(a, "--bytes"@, 'c')),
        PrintChars: sel.PrintChars || some_arg(args, |a: Seq<char>| selects(a, "--chars"@, 'm')),
        PrintLines: sel.PrintLines || some_arg(args, |a: Seq<char>| selects(a, "--lines"@, 'l')),
        PrintWords: sel.PrintWords || some_arg(args, |a: Seq<char>| selects(a, "--words"@, 'w')),
        PrintMaxLineLength: sel.PrintMaxLineLength || some_arg(args, |a: Seq<char>| selects(a, "--max-line-length"@, 'L')),
    }
}

/// What parsing `args` (all valid, none the bare `--files0-from`) gathers on top of `st`:
/// every flag that some argument turns on, the last `--files0-from=F`, and the input names
/// in order.
pub open spec fn gathered(args: Seq<Seq<char>>, st: ParseModel) -> ParseModel {
    ParseModel {
        selected: selection_after(st.selected, args),
        files0: files0_after(args, st.files0),
        names: st.names + names_of(args),
        help: st.help || some_arg(args, |a: Seq<char>| asks_help(a)),
        version: st.version || some_arg(args, |a: Seq<char>| asks_version(a)),
    }
}

/// Whether the parser accepts the argument `a` (in any state).
pub open spec fn arg_ok(a: Seq<char>) -> bool {
    arg_step(initial_parse(), a) is Ok
}

proof fn lemma_step_gathered(st: ParseModel, a: Seq<char>)
    requires
        arg_step(st, a) is Ok,
    ensures
        arg_step(st, a) == Ok::<ParseModel, Seq<char>>(gathered(seq![a], st)),
{
    let one = seq![a];
    assert(one[0] == a);
    assert(one.drop_last() =~= Seq::<Seq<char>>::empty());
    assert(one.last() == a);
    assert forall|f: spec_fn(Seq<char>) -> bool| some_arg(one, f) == f(a) by {
        if f(a) {
            assert(f(one[0]));
        }
    }
    let g = gathered(one, st);
    assert(names_of(one) == if arg_kind(a) == 5 { seq![a] } else { Seq::<Seq<char>>::empty() }) by {
        assert(names_of(Seq::<Seq<char>>::empty()) == Seq::<Seq<char>>::empty());
        assert(Seq::<Seq<char>>::empty().push(a) =~= seq![a]);
    }
    assert(st.names + Seq::<Seq<char>>::empty() =~= st.names);
    assert(st.names + seq![a] =~= st.names.push(a));
    assert(files0_after(one, st.files0) == if arg_kind(a) == 2 { Some(files0_value(a)) } else { st.files0 }) by {
        assert(files0_after(Seq::<Seq<char>>::empty(), st.files0) == st.files0);
    }
    reveal_strlit("--bytes");
    reveal_strlit("--chars");
    reveal_strlit("--lines");
    reveal_strlit("--words");
    reveal_strlit("--max-line-length");
    assert("--bytes"@[2] == 'b' && "--chars"@[2] == 'c' && "--lines"@[2] == 'l' && "--words"@[2] == 'w'
        && "--max-line-length"@[2] == 'm');
    let k = arg_kind(a);
    let r = arg_step(st, a)->Ok_0;
    if k == 4 {
        lemma_short_flags_closed(st, a.drop_first());
    } else {
        assert(!bundle_has(a, 'c') && !bundle_has(a, 'm') && !bundle_has(a, 'l') && !bundle_has(a, 'w')
            && !bundle_has(a, 'L') && !bundle_has(a, 'h') && !bundle_has(a, 'V'));
    }
    assert(r.selected == g.selected);
    assert(r.files0 == g.files0);
    assert(r == g);
}


proof fn lemma_some_arg_push(p: Seq<Seq<char>>, x: Seq<char>, f: spec_fn(Seq<char>) -> bool)
    ensures
        some_arg(p.push(x), f) == (some_arg(p, f) || f(x)),
{
    let q = p.push(x);
    if some_arg(q, f) {
        let i = choose|i: int| 0 <= i < q.len() && #[trigger] f(q[i]);
        if i < p.len() {
            assert(q[i] == p[i]);
        }
    }
    if some_arg(p, f) {
        let i = choose|i: int| 0 <= i < p.len() && #[trigger] f(p[i]);
        assert(q[i] == p[i]);
    }
    if f(x) {
        assert(q[p.len() as int] == x);
    }
}

proof fn lemma_gathered_push(p: Seq<Seq<char>>, x: Seq<char>, st: ParseModel)
    ensures
        gathered(p.push(x), st) == gathered(seq![x], gathered(p, st)),
{
    let q = p.push(x);
    let g = gathered(p, st);
    let one = seq![x];
    assert(q.drop_last() =~= p);
    assert(q.last() == x);
    assert(one.drop_last() =~= Seq::<Seq<char>>::empty());
    assert(one.last() == x);
    assert forall|f: spec_fn(Seq<char>) -> bool| #[trigger] some_arg(q, f) == (some_arg(p, f) || some_arg(one, f)) by {
        lemma_some_arg_push(p, x, f);
        lemma_some_arg_push(Seq::<Seq<char>>::empty(), x, f);
        assert(Seq::<Seq<char>>::empty().push(x) =~= one);
    }
    assert(files0_after(Seq::<Seq<char>>::empty(), g.files0) == g.files0);
    assert(names_of(Seq::<Seq<char>>::empty()) == Seq::<Seq<char>>::empty());
    assert(Seq::<Seq<char>>::empty().push(x) =~= one);
    assert(st.names + names_of(p).push(x) =~= (st.names + names_of(p)) + one);
    assert(st.names + names_of(p) =~= (st.names + names_of(p)) + Seq::<Seq<char>>::empty());
    assert(gathered(q, st) == gathered(one, g));
}

/// The parser gets through the first `n` arguments (none the bare `--files0-from`) exactly
/// when each of them is valid, and then it has gathered what `gathered` says.
proof fn lemma_state_gathered(args: Seq<Seq<char>>, n: int, st: ParseModel)
    requires
        0 <= n <= args.len(),
    ensures
        (state_at(args, n, st) is Ok) == (forall|i: int| 0 <= i < n ==> arg_ok(#[trigger] args[i])),
        state_at(args, n, st) is Ok ==> state_at(args, n, st) == Ok::<ParseModel, Seq<char>>(gathered(args.take(n), st)),
    decreases n,
{
    if n == 0 {
        let e = args.take(0);
        assert(e =~= Seq::<Seq<char>>::empty());
        assert(files0_after(e, st.files0) == st.files0);
        assert(names_of(e) == Seq::<Seq<char>>::empty());
        assert(st.names + names_of(e) =~= st.names);
        assert forall|f: spec_fn(Seq<char>) -> bool| !#[trigger] some_arg(e, f) by {}
        assert(gathered(e, st) == st);
    } else {
        lemma_state_gathered(args, n - 1, st);
        let x = args[n - 1];
        assert(args.take(n) =~= args.take(n - 1).push(x));
        match state_at(args, n - 1, st) {
            Ok(s) => {
                lemma_step_ok_independent(s, initial_parse(), x);
                if arg_step(s, x) is Ok {
                    lemma_step_gathered(s, x);
                    lemma_gathered_push(args.take(n - 1), x, st);
                }
            },
            Err(e) => {
                let j = choose|j: int| 0 <= j < n - 1 && !arg_ok(#[trigger] args[j]);
                assert(!arg_ok(args[j]));
            },
        }
    }
}

proof fn lemma_parse_gathered(args: Seq<Seq<char>>, st: ParseModel)
    requires
        forall|j: int| 0 <= j < args.len() ==> #[trigger] args[j] != "--files0-from"@,
    ensures
        (parse_from(args, 0, st) is Ok) == ((forall|i: int| 0 <= i < args.len() ==> arg_ok(#[trigger] args[i]))
            && !(gathered(args, st).files0 is Some && gathered(args, st).names.len() > 0)),
        parse_from(args, 0, st) is Ok ==> parse_from(args, 0, st) == Ok::<ParseModel, Seq<char>>(gathered(args, st)),
{
    lemma_parse_prefix(args, args.len() as int, st);
    lemma_state_gathered(args, args.len() as int, st);
    assert(args.take(args.len() as int) =~= args);
}

proof fn lemma_some_arg_within(a: Seq<Seq<char>>, b: Seq<Seq<char>>, f: spec_fn(Seq<char>) -> bool)
    requires
        forall|j: int| 0 <= j < b.len() ==> a.contains(#[trigger] b[j]),
    ensures
        some_arg(b, f) ==> some_arg(a, f),
{
    if some_arg(b, f) {
        let j = choose|j: int| 0 <= j < b.len() && #[trigger] f(b[j]);
        assert(a.contains(b[j]));
        let i = choose|i: int| 0 <= i < a.len() && a[i] == b[j];
        assert(f(a[i]));
    }
}

/// Whether `a` is a `--files0-from=F`.
pub open spec fn is_files0_option(a: Seq<char>) -> bool {
    arg_kind(a) == 2
}

proof fn lemma_files0_after_uniform(args: Seq<Seq<char>>, cur: Option<Seq<char>>, w: Seq<char>)
    requires
        forall|i: int| 0 <= i < args.len() && is_files0_option(#[trigger] args[i]) ==> args[i] == w,
    ensures
        files0_after(args, cur) == if some_arg(args, |a: Seq<char>| is_files0_option(a)) {
            Some(files0_value(w))
        } else {
            cur
        },
    decreases args.len(),
{
    let f = |a: Seq<char>| is_files0_option(a);
    if args.len() > 0 {
        let p = args.drop_last();
        let x = args.last();
        assert(p.push(x) =~= args);
        assert forall|i: int| 0 <= i < p.len() && is_files0_option(#[trigger] p[i]) implies p[i] == w by {
            assert(p[i] == args[i]);
        }
        lemma_files0_after_uniform(p, cur, w);
        lemma_some_arg_push(p, x, f);
        if is_files0_option(x) {
            assert(args[args.len() - 1] == x);
        }
    } else {
        assert(!some_arg(args, f));
    }
}

proof fn lemma_reorder_core(a: Seq<Seq<char>>, b: Seq<Seq<char>>, st: ParseModel)
    requires
        forall|j: int| 0 <= j < a.len() ==> #[trigger] a[j] != "--files0-from"@,
        forall|j: int| 0 <= j < b.len() ==> a.contains(#[trigger] b[j]),
        forall|j: int| 0 <= j < a.len() ==> b.contains(#[trigger] a[j]),
        names_of(a) == names_of(b),
        forall|i: int, j: int|
            0 <= i < a.len() && 0 <= j < a.len() && is_files0_option(#[trigger] a[i]) && is_files0_option(#[trigger] a[j])
                ==> a[i] == a[j],
    ensures
        (parse_from(b, 0, st) is Ok) == (parse_from(a, 0, st) is Ok),
        parse_from(a, 0, st) is Ok ==> parse_from(b, 0, st) == parse_from(a, 0, st),
{
    assert forall|j: int| 0 <= j < b.len() implies #[trigger] b[j] != "--files0-from"@ by {
        assert(a.contains(b[j]));
    }
    lemma_parse_gathered(a, st);
    lemma_parse_gathered(b, st);
    assert forall|f: spec_fn(Seq<char>) -> bool| #[trigger] some_arg(a, f) == some_arg(b, f) by {
        lemma_some_arg_within(a, b, f);
        lemma_some_arg_within(b, a, f);
    }
    let f2 = |x: Seq<char>| is_files0_option(x);
    let w = if some_arg(a, f2) { a[choose|i: int| 0 <= i < a.len() && #[trigger] f2(a[i])] } else { seq![] };
    assert forall|j: int| 0 <= j < b.len() && is_files0_option(#[trigger] b[j]) implies b[j] == w by {
        assert(a.contains(b[j]));
        assert(f2(b[j]));
    }
    lemma_files0_after_uniform(a, st.files0, w);
    lemma_files0_after_uniform(b, st.files0, w);
    assert(gathered(a, st) == gathered(b, st));
    if forall|i: int| 0 <= i < a.len() ==> arg_ok(#[trigger] a[i]) {
        assert forall|j: int| 0 <= j < b.len() implies arg_ok(#[trigger] b[j]) by {
            assert(a.contains(b[j]));
        }
    }
    if forall|i: int| 0 <= i < b.len() ==> arg_ok(#[trigger] b[i]) {
        assert forall|j: int| 0 <= j < a.len() implies arg_ok(#[trigger] a[j]) by {
            assert(b.contains(a[j]));
        }
    }
}

/// The arguments as the parser pairs them: each bare `--files0-from` that has an argument
/// after it is joined with that argument into one `--files0-from=F`.
pub open spec fn joined_all(args: Seq<Seq<char>>) -> Seq<Seq<char>>
    decreases args.len(),
{
    if args.len() == 0 {
        args
    } else if args[0] == "--files0-from"@ && args.len() >= 2 {
        seq!["--files0-from="@ + args[1]] + joined_all(args.subrange(2, args.len() as int))
    } else {
        seq![args[0]] + joined_all(args.drop_first())
    }
}

proof fn lemma_joined_value(x: Seq<char>)
    ensures
        ({
            let v = "--files0-from="@ + x;
            &&& v != "--files0-from"@
            &&& arg_kind(v) == 2
            &&& files0_value(v) == x
        }),
{
    let v = "--files0-from="@ + x;
    reveal_strlit("--files0-from=");
    reveal_strlit("--files0-from");
    reveal_strlit("--help");
    reveal_strlit("--version");
    assert(v.len() >= 14);
    assert(v != "--help"@) by {
        assert("--help"@.len() == 6);
    }
    assert(v != "--version"@) by {
        assert("--version"@.len() == 9);
    }
    assert(v != "--files0-from"@) by {
        assert("--files0-from"@.len() == 13);
    }
    assert(v.subrange(0, "--files0-from="@.len() as int) =~= "--files0-from="@);
    assert(files0_value(v) =~= x);
}

proof fn lemma_bare_not_files0_option()
    ensures
        "--files0-from"@ != "--help"@,
        "--files0-from"@ != "--version"@,
        !is_prefix("--files0-from="@, "--files0-from"@),
{
    reveal_strlit("--files0-from=");
    reveal_strlit("--files0-from");
    reveal_strlit("--help");
    reveal_strlit("--version");
    assert("--files0-from"@.len() == 13);
    assert("--files0-from="@.len() == 14);
    assert("--help"@.len() == 6);
    assert("--version"@.len() == 9);
}

/// Joining each bare `--files0-from` with its value changes nothing in the parse.
proof fn lemma_parse_joined_all(args: Seq<Seq<char>>, st: ParseModel)
    ensures
        parse_from(joined_all(args), 0, st) == parse_from(args, 0, st),
    decreases args.len(),
{
    let j = joined_all(args);
    if args.len() == 0 {
    } else if args[0] == "--files0-from"@ && args.len() >= 2 {
        let rest = args.subrange(2, args.len() as int);
        let r = joined_all(rest);
        let v = "--files0-from="@ + args[1];
        lemma_joined_value(args[1]);
        lemma_bare_not_files0_option();
        let st1 = ParseModel { files0: Some(args[1]), ..st };
        assert(j[0] == v);
        lemma_parse_step(j, 0, st);
        assert forall|t: int| 0 <= t < j.len() - 1 implies #[trigger] j[1 + t] == r[0 + t] by {}
        lemma_parse_shift(j, 1, r, 0, st1);
        assert forall|t: int| 0 <= t < args.len() - 2 implies #[trigger] args[2 + t] == rest[0 + t] by {}
        lemma_parse_shift(args, 2, rest, 0, st1);
        lemma_parse_joined_all(rest, st1);
    } else if args[0] == "--files0-from"@ {
        assert(args.drop_first() =~= Seq::<Seq<char>>::empty());
        assert(joined_all(args.drop_first()) =~= Seq::<Seq<char>>::empty());
        assert(j =~= args);
    } else {
        let rest = args.drop_first();
        let r = joined_all(rest);
        assert(j[0] == args[0]);
        lemma_parse_step(j, 0, st);
        lemma_parse_step(args, 0, st);
        match arg_step(st, args[0]) {
            Ok(s) => {
                assert forall|t: int| 0 <= t < j.len() - 1 implies #[trigger] j[1 + t] == r[0 + t] by {}
                lemma_parse_shift(j, 1, r, 0, s);
                assert forall|t: int| 0 <= t < args.len() - 1 implies #[trigger] args[1 + t] == rest[0 + t] by {}
                lemma_parse_shift(args, 1, rest, 0, s);
                lemma_parse_joined_all(rest, s);
            },
            Err(e) => {},
        }
    }
}

/// In the joined arguments a bare `--files0-from` can only stand last.
proof fn lemma_joined_bare_last(args: Seq<Seq<char>>)
    ensures
        forall|k: int| 0 <= k < joined_all(args).len() - 1 ==> #[trigger] joined_all(args)[k] != "--files0-from"@,
    decreases args.len(),
{
    let j = joined_all(args);
    if args.len() == 0 {
    } else if args[0] == "--files0-from"@ && args.len() >= 2 {
        let rest = args.subrange(2, args.len() as int);
        lemma_joined_bare_last(rest);
        lemma_joined_value(args[1]);
        assert forall|k: int| 0 <= k < j.len() - 1 implies #[trigger] j[k] != "--files0-from"@ by {
            if k > 0 {
                assert(j[k] == joined_all(rest)[k - 1]);
            }
        }
    } else if args[0] == "--files0-from"@ {
        assert(args.drop_first() =~= Seq::<Seq<char>>::empty());
        assert(joined_all(args.drop_first()) =~= Seq::<Seq<char>>::empty());
        assert(j =~= args);
    } else {
        let rest = args.drop_first();
        lemma_joined_bare_last(rest);
        assert forall|k: int| 0 <= k < j.len() - 1 implies #[trigger] j[k] != "--files0-from"@ by {
            if k > 0 {
                assert(j[k] == joined_all(rest)[k - 1]);
            }
        }
    }
}

/// Arguments that hold a bare `--files0-from` only in the last place, and hold it there, are
/// refused.
proof fn lemma_bare_last_refused(args: Seq<Seq<char>>, st: ParseModel)
    requires
        args.len() > 0,
        args.last() == "--files0-from"@,
        forall|k: int| 0 <= k < args.len() - 1 ==> #[trigger] args[k] != "--files0-from"@,
    ensures
        parse_from(args, 0, st) is Err,
{
    let n = args.len() - 1;
    lemma_parse_prefix(args, n, st);
    lemma_bare_not_files0_option();
}

/// Options can be given in any order. Two command lines that hold the same arguments, each
/// bare `--files0-from` kept directly before its value, with the same input names in the
/// same order, are accepted alike, and when accepted they ask for the same thing: flags
/// gather as a set, and the input names keep their order. (`--files0-from` given several
/// times with different values keeps the last one, so there it must have one value.)
pub proof fn law_argument_order(a: Seq<Seq<char>>, b: Seq<Seq<char>>)
    requires
        joined_all(a).to_multiset() == joined_all(b).to_multiset(),
        names_of(joined_all(a)) == names_of(joined_all(b)),
        forall|i: int, j: int|
            0 <= i < joined_all(a).len() && 0 <= j < joined_all(a).len()
                && is_files0_option(#[trigger] joined_all(a)[i]) && is_files0_option(#[trigger] joined_all(a)[j])
                ==> joined_all(a)[i] == joined_all(a)[j],
    ensures
        (parse_from(b, 0, initial_parse()) is Ok) == (parse_from(a, 0, initial_parse()) is Ok),
        parse_from(a, 0, initial_parse()) is Ok
            ==> parse_from(b, 0, initial_parse()) == parse_from(a, 0, initial_parse()),
{
    let ja = joined_all(a);
    let jb = joined_all(b);
    let st = initial_parse();
    let bare = "--files0-from"@;
    lemma_parse_joined_all(a, st);
    lemma_parse_joined_all(b, st);
    lemma_joined_bare_last(a);
    lemma_joined_bare_last(b);
    assert forall|x: Seq<char>| #[trigger] ja.contains(x) == jb.contains(x) by {
        vstd::seq_lib::to_multiset_contains(ja, x);
        vstd::seq_lib::to_multiset_contains(jb, x);
    }
    if ja.contains(bare) {
        assert(jb.contains(bare));
        let k = choose|k: int| 0 <= k < ja.len() && ja[k] == bare;
        assert(k == ja.len() - 1);
        lemma_bare_last_refused(ja, st);
        let l = choose|l: int| 0 <= l < jb.len() && jb[l] == bare;
        assert(l == jb.len() - 1);
        lemma_bare_last_refused(jb, st);
    } else {
        assert forall|j: int| 0 <= j < ja.len() implies #[trigger] ja[j] != bare by {
            if ja[j] == bare {
                assert(ja.contains(bare));
            }
        }
        assert forall|j: int| 0 <= j < jb.len() implies ja.contains(#[trigger] jb[j]) by {
            assert(jb.contains(jb[j]));
        }
        assert forall|j: int| 0 <= j < ja.len() implies jb.contains(#[trigger] ja[j]) by {
            assert(ja.contains(ja[j]));
        }
        lemma_reorder_core(ja, jb, st);
    }
}

proof fn lemma_joined_all_plain(args: Seq<Seq<char>>)
    requires
        !args.contains("--files0-from"@),
    ensures
        joined_all(args) == args,
    decreases args.len(),
{
    if args.len() > 0 {
        assert(args[0] != "--files0-from"@) by {
            if args[0] == "--files0-from"@ {
                assert(args.contains(args[0]));
            }
        }
        let rest = args.drop_first();
        assert(!rest.contains("--files0-from"@)) by {
            if rest.contains("--files0-from"@) {
                let k = choose|k: int| 0 <= k < rest.len() && rest[k] == "--files0-from"@;
                assert(args[k + 1] == rest[k]);
            }
        }
        lemma_joined_all_plain(rest);
        assert(seq![args[0]] + rest =~= args);
    }
}

/// Options can be given in any order, stated on the arguments as given: a permutation of
/// command line `a` that keeps the input names in their order, where `--files0-from` is
/// always written `--files0-from=F` and has one value, is accepted exactly when `a` is, and
/// then asks for the same thing. (`law_argument_order` covers the bare `--files0-from F`.)
pub proof fn law_argument_permutation(a: Seq<Seq<char>>, b: Seq<Seq<char>>)
    requires
        a.to_multiset() == b.to_multiset(),
        !a.contains("--files0-from"@),
        names_of(a) == names_of(b),
        forall|i: int, j: int|
            0 <= i < a.len() && 0 <= j < a.len() && is_files0_option(#[trigger] a[i]) && is_files0_option(#[trigger] a[j])
                ==> a[i] == a[j],
    ensures
        (parse_from(b, 0, initial_parse()) is Ok) == (parse_from(a, 0, initial_parse()) is Ok),
        parse_from(a, 0, initial_parse()) is Ok
            ==> parse_from(b, 0, initial_parse()) == parse_from(a, 0, initial_parse()),
{
    vstd::seq_lib::to_multiset_contains(a, "--files0-from"@);
    vstd::seq_lib::to_multiset_contains(b, "--files0-from"@);
    lemma_joined_all_plain(a);
    lemma_joined_all_plain(b);
    law_argument_order(a, b);
}

/// Where one result's bytes come from.
#[derive(Clone, Debug, PartialEq, Eq)]
pub enum InputSource {
    /// Standard input, when no name is given; the result has no name.
    UnnamedStdin,
    /// Standard input, named `-`; it is read once however often `-` is named.
    NamedStdin,
    /// The file of this name.
    File(String),
}

/// The sources for the input names, in order: standard input alone when there is none, else
/// standard input for each `-` and the named file for every other name.
pub fn PlanInputs(InputNames: Vec<String>) -> (Plan: Vec<InputSource>)
    ensures
        InputNames@.len() == 0 ==> Plan@ == seq![InputSource::UnnamedStdin],
        InputNames@.len() > 0 ==> {
            &&& Plan@.len() == InputNames@.len()
            &&& forall|i: int| 0 <= i < InputNames@.len() ==> #[trigger] Plan@[i] == if InputNames@[i]@ == "-"@ {
                InputSource::NamedStdin
            } else {
                InputSource::File(InputNames@[i])
            }
        },
{
    let mut Plan: Vec<InputSource> = Vec::new();
    if InputNames.len() == 0 {
        Plan.push(InputSource::UnnamedStdin);
        assert(Plan@ =~= seq![InputSource::UnnamedStdin]);
        return Plan;
    }
    let mut i: usize = 0;
    while i < InputNames.len()
        invariant
            i <= InputNames@.len(),
            Plan@.len() == i,
            forall|j: int| 0 <= j < i ==> #[trigger] Plan@[j] == if InputNames@[j]@ == "-"@ {
                InputSource::NamedStdin
            } else {
                InputSource::File(InputNames@[j])
            },
        decreases InputNames@.len() - i,
    {
        let Name = &InputNames[i];
        if str_eq(Name.as_str(), "-") {
            Plan.push(InputSource::NamedStdin);
        } else {
            Plan.push(InputSource::File(Name.clone()));
        }
        i = i + 1;
    }
    Plan
}

/// The default counts (lines, words and bytes) come in only when no count at all is
/// selected: as soon as any of the five flags is set, `-L` alone included, the selection is
/// printed as given.
pub proof fn law_defaults_only_without_selection(s: SelectedCounts)
    ensures
        s.PrintLines || s.PrintWords || s.PrintChars || s.PrintBytes || s.PrintMaxLineLength
            ==> effective_selection(s) == s,
        !(s.PrintLines || s.PrintWords || s.PrintChars || s.PrintBytes || s.PrintMaxLineLength)
            ==> effective_selection(s) == (SelectedCounts {
                PrintLines: true,
                PrintWords: true,
                PrintChars: false,
                PrintBytes: true,
                PrintMaxLineLength: false,
            }),
{
}

/// The number that the decimal digits `cs` spell, most significant first.
pub open spec fn digits_value(cs: Seq<char>) -> int
    decreases cs.len(),
{
    if cs.len() == 0 {
        0
    } else {
        digits_value(cs.drop_last()) * 10 + (cs.last() as int - 48)
    }
}

/// Numbers are printed in plain decimal: the digits spell the number back, every one is
/// `0` to `9`, and there is no leading zero.
pub proof fn law_decimal_spells_number(n: nat)
    ensures
        digits_value(decimal(n)) == n,
        forall|i: int| 0 <= i < decimal(n).len() ==> '0' <= #[trigger] decimal(n)[i] <= '9',
        decimal(n).len() >= 1,
        n > 0 ==> decimal(n)[0] != '0',
        n == 0 ==> decimal(n) == seq!['0'],
    decreases n,
{
    if n < 10 {
        assert(decimal(n) =~= seq![(48 + n) as char]);
        assert(decimal(n).drop_last() =~= Seq::<char>::empty());
        assert(((48 + n) as char) as int == 48 + n);
        assert(digits_value(Seq::<char>::empty()) == 0);
        assert(digits_value(decimal(n)) == digits_value(decimal(n).drop_last()) * 10 + (decimal(n).last() as int - 48));
    } else {
        law_decimal_spells_number(n / 10);
        let d = decimal(n);
        assert(((48 + n % 10) as char) as int == 48 + n % 10);
        assert((n / 10) * 10 + n % 10 == n);
        assert(d.drop_last() =~= decimal(n / 10));
        assert(d.last() == (48 + n % 10) as char);
        assert(digits_value(d) == digits_value(decimal(n / 10)) * 10 + (d.last() as int - 48));
        assert(d.drop_last() =~= decimal(n / 10));
        assert forall|i: int| 0 <= i < d.len() implies '0' <= #[trigger] d[i] <= '9' by {
            if i < d.len() - 1 {
                assert(d[i] == decimal(n / 10)[i]);
            }
        }
        assert(d[0] == decimal(n / 10)[0]);
    }
}

/// The widest value of each count bounds every result's count and is one of them (or 0
/// without results), so its column fits them all.
pub proof fn law_max_bounds_every_result(rs: Seq<(Option<String>, WcCounts)>)
    ensures
        forall|i: int| 0 <= i < rs.len() ==> {
            let c = #[trigger] rs[i].1;
            &&& c.Lines <= max_of(rs).Lines
            &&& c.Words <= max_of(rs).Words
            &&& c.Chars <= max_of(rs).Chars
            &&& c.Bytes <= max_of(rs).Bytes
            &&& c.MaxLineLength <= max_of(rs).MaxLineLength
        },
        rs.len() == 0 ==> max_of(rs) == (WcCounts { Lines: 0, Words: 0, Chars: 0, Bytes: 0, MaxLineLength: 0 }),
        rs.len() > 0 ==> exists|i: int| 0 <= i < rs.len() && #[trigger] rs[i].1.Lines == max_of(rs).Lines,
        rs.len() > 0 ==> exists|i: int| 0 <= i < rs.len() && #[trigger] rs[i].1.Words == max_of(rs).Words,
        rs.len() > 0 ==> exists|i: int| 0 <= i < rs.len() && #[trigger] rs[i].1.Chars == max_of(rs).Chars,
        rs.len() > 0 ==> exists|i: int| 0 <= i < rs.len() && #[trigger] rs[i].1.Bytes == max_of(rs).Bytes,
        rs.len() > 0 ==> exists|i: int| 0 <= i < rs.len() && #[trigger] rs[i].1.MaxLineLength == max_of(rs).MaxLineLength,
    decreases rs.len(),
{
    if rs.len() > 0 {
        let p = rs.drop_last();
        law_max_bounds_every_result(p);
        let l = rs.len() - 1;
        assert forall|i: int| 0 <= i < l implies #[trigger] rs[i] == p[i] by {}
        let m = max_of(rs);
        let mp = max_of(p);
        if p.len() > 0 {
            let i1 = choose|i: int| 0 <= i < p.len() && #[trigger] p[i].1.Lines == mp.Lines;
            let i2 = choose|i: int| 0 <= i < p.len() && #[trigger] p[i].1.Words == mp.Words;
            let i3 = choose|i: int| 0 <= i < p.len() && #[trigger] p[i].1.Chars == mp.Chars;
            let i4 = choose|i: int| 0 <= i < p.len() && #[trigger] p[i].1.Bytes == mp.Bytes;
            let i5 = choose|i: int| 0 <= i < p.len() && #[trigger] p[i].1.MaxLineLength == mp.MaxLineLength;
            assert(rs[i1] == p[i1] && rs[i2] == p[i2] && rs[i3] == p[i3] && rs[i4] == p[i4] && rs[i5] == p[i5]);
            assert(rs[l].1 == rs.last().1);
        } else {
            assert(rs[0].1 == rs.last().1);
        }
        assert forall|i: int| 0 <= i < rs.len() implies {
            let c = #[trigger] rs[i].1;
            &&& c.Lines <= m.Lines
            &&& c.Words <= m.Words
            &&& c.Chars <= m.Chars
            &&& c.Bytes <= m.Bytes
            &&& c.MaxLineLength <= m.MaxLineLength
        } by {
            if i < l {
                assert(rs[i] == p[i]);
            }
        }
    }
}

/// The parts put back together with a NUL byte between each two.
pub open spec fn nul_joined(parts: Seq<Seq<u8>>) -> Seq<u8>
    decreases parts.len(),
{
    if parts.len() <= 1 {
        if parts.len() == 1 { parts[0] } else { seq![] }
    } else {
        nul_joined(parts.drop_last()) + seq![0u8] + parts.last()
    }
}

/// The `--files0-from` list is cut at every NUL byte and nowhere else: the parts hold no NUL,
/// there is one more part than NUL bytes, and putting the parts back together with a NUL
/// between each two gives the list again.
pub proof fn law_split_at_nul(bytes: Seq<u8>)
    ensures
        nul_joined(split_nul(bytes)) == bytes,
        split_nul(bytes).len() == count_byte(bytes, 0) + 1,
        forall|i: int, j: int| 0 <= i < split_nul(bytes).len() && 0 <= j < split_nul(bytes)[i].len()
            ==> #[trigger] split_nul(bytes)[i][j] != 0u8,
    decreases bytes.len(),
{
    if bytes.len() == 0 {
        assert(nul_joined(seq![seq![]]) == Seq::<u8>::empty());
    } else {
        let p = bytes.drop_last();
        let b = bytes.last();
        law_split_at_nul(p);
        lemma_split_nul_nonempty(p);
        let P = split_nul(p);
        let parts = split_nul(bytes);
        assert(p.push(b) =~= bytes);
        if b == 0 {
            assert(parts.drop_last() =~= P);
            assert(nul_joined(parts) =~= p + seq![0u8] + Seq::<u8>::empty());
            assert forall|i: int, j: int| 0 <= i < parts.len() && 0 <= j < parts[i].len()
                implies #[trigger] parts[i][j] != 0u8 by {
                assert(parts[i] == P[i]);
            }
        } else {
            let last = P.last().push(b);
            assert(parts.drop_last() =~= P.drop_last());
            if P.len() == 1 {
                assert(nul_joined(P) == P[0]);
                assert(nul_joined(parts) == parts[0]);
                assert(parts[0] =~= p.push(b));
            } else {
                assert(nul_joined(P) == nul_joined(P.drop_last()) + seq![0u8] + P.last());
                assert(nul_joined(parts) == nul_joined(P.drop_last()) + seq![0u8] + last);
                assert(nul_joined(parts) =~= bytes);
            }
            assert forall|i: int, j: int| 0 <= i < parts.len() && 0 <= j < parts[i].len()
                implies #[trigger] parts[i][j] != 0u8 by {
                if i < P.len() - 1 {
                    assert(parts[i] == P[i]);
                } else if j < P.last().len() {
                    assert(parts[i][j] == P[P.len() - 1][j]);
                }
            }
        }
    }
}

/// The total line adds up: the totals over two lists of results are the sums of the totals
/// over each (the longest line the larger of the two), and a single result is its own total.
pub proof fn law_totals_add(a: Seq<(Option<String>, WcCounts)>, b: Seq<(Option<String>, WcCounts)>)
    ensures
        total_of(a + b).lines == total_of(a).lines + total_of(b).lines,
        total_of(a + b).words == total_of(a).words + total_of(b).words,
        total_of(a + b).chars == total_of(a).chars + total_of(b).chars,
        total_of(a + b).bytes == total_of(a).bytes + total_of(b).bytes,
        total_of(a + b).max_line == if total_of(a).max_line >= total_of(b).max_line {
            total_of(a).max_line
        } else {
            total_of(b).max_line
        },
        b.len() == 1 ==> total_of(b) == (CountsSum {
            lines: b[0].1.Lines as int,
            words: b[0].1.Words as int,
            chars: b[0].1.Chars as int,
            bytes: b[0].1.Bytes as int,
            max_line: b[0].1.MaxLineLength as int,
        }),
    decreases b.len(),
{
    lemma_total_nonneg(a);
    if b.len() == 0 {
        assert(a + b =~= a);
    } else {
        law_totals_add(a, b.drop_last());
        assert((a + b).drop_last() =~= a + b.drop_last());
        assert((a + b).last() == b.last());
        if b.len() == 1 {
            assert(b.drop_last() =~= Seq::<(Option<String>, WcCounts)>::empty());
        }
        lemma_total_nonneg(b.drop_last());
    }
}

} // verus!
