use osirs::wc::{
    ApplyLongFlag, ApplyShortFlag, ComputeCounts, ComputeTotal, ComputeWidths, DigitCount, EffectiveSelection,
    FormatOneLine, FormatResults, GetOrReadStdin, InputSource, NamesFromFiles0, ParseArguments, PlanInputs,
    SelectedCounts, WcCounts,
    WcTextCounts,
};

fn args(list: &[&str]) -> Vec<String> {
    list.iter().map(|s| s.to_string()).collect()
}

fn sel(l: bool, w: bool, m: bool, c: bool, big_l: bool) -> SelectedCounts {
    SelectedCounts { PrintLines: l, PrintWords: w, PrintChars: m, PrintBytes: c, PrintMaxLineLength: big_l }
}

fn counts(lines: u64, words: u64, chars: u64, bytes: u64, max: u64) -> WcCounts {
    WcCounts { Lines: lines, Words: words, Chars: chars, Bytes: bytes, MaxLineLength: max }
}

#[test]
fn counts_of_plain_text() {
    let c = ComputeCounts(b"hello world\nfoo\n");
    assert_eq!(c, counts(2, 3, 16, 16, 11));
}

#[test]
fn counts_of_text_without_final_newline() {
    let c = ComputeCounts("a  b\tc\n\u{00e9}t\u{00e9}".as_bytes());
    assert_eq!(c.Lines, 1);
    assert_eq!(c.Words, 4);
    assert_eq!(c.Chars, 10);
    assert_eq!(c.Bytes, 12);
    assert_eq!(c.MaxLineLength, 9);
}

#[test]
fn invalid_utf8_counts_replacement_characters() {
    let c = ComputeCounts(&[0xff, b'a']);
    assert_eq!(c.Chars, 2);
    assert_eq!(c.Bytes, 2);
    assert_eq!(c.Words, 1);
}

#[test]
fn empty_input_counts_nothing() {
    assert_eq!(ComputeCounts(b""), counts(0, 0, 0, 0, 0));
}

#[test]
fn digit_counts() {
    assert_eq!(DigitCount(0), 1);
    assert_eq!(DigitCount(9), 1);
    assert_eq!(DigitCount(10), 2);
    assert_eq!(DigitCount(12345), 5);
    assert_eq!(DigitCount(u64::MAX), 20);
}

#[test]
fn totals_sum_and_take_the_longest_line() {
    let rs = vec![(Some("a".to_string()), counts(1, 2, 3, 4, 5)), (None, counts(10, 20, 30, 40, 2))];
    assert_eq!(ComputeTotal(&rs), counts(11, 22, 33, 44, 5));
}

#[test]
fn widths_follow_the_largest_value() {
    let rs = vec![(None, counts(5, 123, 0, 9, 0))];
    let total = counts(10, 0, 0, 0, 0);
    assert_eq!(ComputeWidths(sel(true, true, false, true, false), &rs, Some(&total)), (3, 4, 0, 2, 0));
    assert_eq!(ComputeWidths(sel(true, true, false, true, false), &rs, None), (2, 4, 0, 2, 0));
}

#[test]
fn one_line_is_right_aligned_with_name() {
    let line = FormatOneLine(sel(true, true, false, true, false), counts(2, 3, 0, 16, 0), Some("f.txt"), true, (2, 2, 0, 3, 0));
    assert_eq!(line, " 2 3 16 f.txt");
    let line = FormatOneLine(sel(true, false, false, false, false), counts(123, 0, 0, 0, 0), Some("x"), false, (2, 0, 0, 0, 0));
    assert_eq!(line, "123");
}

#[test]
fn results_get_a_total_line() {
    let rs = vec![(Some("a".to_string()), counts(1, 2, 0, 10, 0)), (Some("b".to_string()), counts(3, 4, 0, 100, 0))];
    let lines = FormatResults(sel(true, true, false, true, false), &rs);
    assert_eq!(lines, vec![" 1 2  10 a", " 3 4 100 b", " 4 6 110 total"]);
}

#[test]
fn single_result_has_no_total() {
    let rs = vec![(None, counts(1, 2, 0, 10, 0))];
    let lines = FormatResults(sel(true, true, false, true, false), &rs);
    assert_eq!(lines, vec![" 1 2 10".to_string()]);
}

#[test]
fn default_selection_is_lines_words_bytes() {
    assert_eq!(EffectiveSelection(sel(false, false, false, false, false)), sel(true, true, false, true, false));
    assert_eq!(EffectiveSelection(sel(false, false, true, false, false)), sel(false, false, true, false, false));
}

#[test]
fn parse_short_and_long_flags_and_names() {
    let p = ParseArguments(args(&["-lw", "--chars", "a.txt", "-", "b"])).unwrap();
    assert_eq!(p.Selected, sel(true, true, true, false, false));
    assert_eq!(p.InputNames, args(&["a.txt", "-", "b"]));
    assert_eq!(p.Files0From, None);
    assert!(!p.ShowHelp && !p.ShowVersion);
}

#[test]
fn parse_help_and_version() {
    let p = ParseArguments(args(&["--help", "-V"])).unwrap();
    assert!(p.ShowHelp);
    assert!(p.ShowVersion);
    let p = ParseArguments(args(&["-h"])).unwrap();
    assert!(p.ShowHelp);
}

#[test]
fn parse_files0_from_both_forms() {
    let p = ParseArguments(args(&["--files0-from=list"])).unwrap();
    assert_eq!(p.Files0From, Some("list".to_string()));
    let p = ParseArguments(args(&["--files0-from", "-", "-L"])).unwrap();
    assert_eq!(p.Files0From, Some("-".to_string()));
    assert!(p.Selected.PrintMaxLineLength);
}

#[test]
fn parse_errors() {
    assert_eq!(ParseArguments(args(&["--files0-from"])).err().unwrap(), "wc: option '--files0-from' requires an argument");
    assert_eq!(ParseArguments(args(&["-lz"])).err().unwrap(), "wc: invalid option -- 'z'");
    assert_eq!(ParseArguments(args(&["--bogus"])).err().unwrap(), "wc: unrecognized option '--bogus'");
    assert_eq!(ParseArguments(args(&["--"])).err().unwrap(), "wc: unrecognized option '--'");
    assert_eq!(
        ParseArguments(args(&["--files0-from=x", "a"])).err().unwrap(),
        "wc: cannot combine --files0-from with FILE arguments"
    );
}

#[test]
fn flag_helpers() {
    let mut s = sel(false, false, false, false, false);
    assert!(ApplyLongFlag(&mut s, "--bytes").is_ok());
    assert!(s.PrintBytes);
    assert_eq!(ApplyLongFlag(&mut s, "--x").err().unwrap(), "wc: unrecognized option '--x'");
    let (mut h, mut v) = (false, false);
    assert!(ApplyShortFlag(&mut s, 'L', &mut h, &mut v).is_ok());
    assert!(s.PrintMaxLineLength);
    assert!(ApplyShortFlag(&mut s, 'V', &mut h, &mut v).is_ok());
    assert!(v && !h);
    assert_eq!(ApplyShortFlag(&mut s, '?', &mut h, &mut v).err().unwrap(), "wc: invalid option -- '?'");
}

#[test]
fn names_from_nul_separated_list() {
    assert_eq!(NamesFromFiles0(b"a\0 b \0\0c"), args(&["a", "b", "c"]));
    assert_eq!(NamesFromFiles0(b"  single\n"), args(&["single"]));
    assert_eq!(NamesFromFiles0(b""), Vec::<String>::new());
    assert_eq!(NamesFromFiles0(b"\0 \0"), Vec::<String>::new());
}

#[test]
fn stdin_is_read_once() {
    let mut cache: Option<Vec<u8>> = None;
    assert_eq!(GetOrReadStdin(&mut cache, Some(Ok(vec![1, 2]))), Ok(vec![1, 2]));
    assert_eq!(cache, Some(vec![1, 2]));
    assert_eq!(GetOrReadStdin(&mut cache, None), Ok(vec![1, 2]));
    let mut empty: Option<Vec<u8>> = None;
    assert_eq!(GetOrReadStdin(&mut empty, Some(Err("wc: stdin: broken".to_string()))), Err("wc: stdin: broken".to_string()));
    assert_eq!(empty, None);
}

#[test]
fn text_counts() {
    let c = WcTextCounts("one two\nthree\n");
    assert_eq!((c.Lines, c.Words, c.Bytes), (2, 3, 14));
}

#[test]
fn max_line_length_is_display_width() {
    let c = ComputeCounts(b"\tab\n");
    assert_eq!((c.Lines, c.Words, c.Bytes, c.MaxLineLength), (1, 1, 4, 10));
    let c = ComputeCounts(b"1234567\tx\n12345678\ty");
    assert_eq!(c.MaxLineLength, 17);
}

#[test]
fn plan_reads_stdin_when_no_names() {
    assert_eq!(PlanInputs(vec![]), vec![InputSource::UnnamedStdin]);
    assert_eq!(
        PlanInputs(args(&["a", "-", "b", "-"])),
        vec![
            InputSource::File("a".to_string()),
            InputSource::NamedStdin,
            InputSource::File("b".to_string()),
            InputSource::NamedStdin
        ]
    );
}

#[test]
fn options_commute_and_forms_agree() {
    let a = ParseArguments(args(&["-l", "x", "--words", "y"])).unwrap();
    let b = ParseArguments(args(&["x", "--words", "-l", "y"])).unwrap();
    assert_eq!(a.Selected, b.Selected);
    assert_eq!(a.InputNames, b.InputNames);
    let c = ParseArguments(args(&["--files0-from", "list", "-c"])).unwrap();
    let d = ParseArguments(args(&["-c", "--files0-from=list"])).unwrap();
    assert_eq!(c.Files0From, d.Files0From);
    assert_eq!(c.Selected, d.Selected);
}

#[test]
fn any_order_of_arguments_gives_the_same_parse() {
    let a = ParseArguments(args(&["--files0-from", "list", "-lw", "--chars", "-L"])).unwrap();
    let b = ParseArguments(args(&["-L", "--chars", "--files0-from=list", "-wl"])).unwrap();
    let c = ParseArguments(args(&["-wl", "-L", "--files0-from", "list", "--chars"])).unwrap();
    for other in [&b, &c] {
        assert_eq!(a.Selected, other.Selected);
        assert_eq!(a.Files0From, other.Files0From);
        assert_eq!(a.ShowHelp, other.ShowHelp);
        assert_eq!(a.ShowVersion, other.ShowVersion);
        assert_eq!(a.InputNames, other.InputNames);
    }
    assert_eq!(a.Selected, sel(true, true, true, false, true));
    let d = ParseArguments(args(&["x", "-h", "y", "--version", "z"])).unwrap();
    let e = ParseArguments(args(&["--version", "x", "y", "-h", "z"])).unwrap();
    assert_eq!(d.InputNames, e.InputNames);
    assert_eq!(d.InputNames, args(&["x", "y", "z"]));
    assert!(d.ShowHelp && e.ShowHelp && d.ShowVersion && e.ShowVersion);
}

#[test]
fn reordered_refusal_is_still_a_refusal() {
    assert!(ParseArguments(args(&["-q", "x"])).is_err());
    assert!(ParseArguments(args(&["x", "-q"])).is_err());
    assert!(ParseArguments(args(&["x", "--files0-from=list"])).is_err());
    assert!(ParseArguments(args(&["--files0-from=list", "x"])).is_err());
}
