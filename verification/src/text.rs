use vstd::prelude::*;
use vstd::string::StrSliceExecFns;
use vstd::string::StringExecFns;

verus! {

/// Whether `c` has the Unicode White_Space property (what `char::is_whitespace` tests).
pub open spec fn is_white_space(c: char) -> bool {
    let u = c as u32;
    (0x09 <= u <= 0x0D) || u == 0x20 || u == 0x85 || u == 0xA0 || u == 0x1680
        || (0x2000 <= u <= 0x200A) || u == 0x2028 || u == 0x2029 || u == 0x202F
        || u == 0x205F || u == 0x3000
}

/// Whether `c` has the Unicode White_Space property.
pub fn IsWhiteSpace(c: char) -> (b: bool)
    ensures
        b == is_white_space(c),
{
    let u = c as u32;
    (0x09 <= u && u <= 0x0D) || u == 0x20 || u == 0x85 || u == 0xA0 || u == 0x1680
        || (0x2000 <= u && u <= 0x200A) || u == 0x2028 || u == 0x2029 || u == 0x202F
        || u == 0x205F || u == 0x3000
}

/// The characters of `s`.
pub fn str_chars(s: &str) -> (chars: Vec<char>)
    ensures
        chars@ == s@,
{
    let n = s.unicode_len();
    let mut chars: Vec<char> = Vec::new();
    let mut i: usize = 0;
    while i < n
        invariant
            n == s@.len(),
            i <= n,
            chars@ == s@.subrange(0, i as int),
        decreases n - i,
    {
        chars.push(s.get_char(i));
        assert(chars@ =~= s@.subrange(0, i + 1));
        i = i + 1;
    }
    assert(chars@ =~= s@);
    chars
}

/// Whether `a` and `b` hold the same characters.
pub fn str_eq(a: &str, b: &str) -> (eq: bool)
    ensures
        eq == (a@ == b@),
{
    let n = a.unicode_len();
    if n != b.unicode_len() {
        return false;
    }
    let mut i: usize = 0;
    while i < n
        invariant
            n == a@.len(),
            n == b@.len(),
            i <= n,
            a@.subrange(0, i as int) == b@.subrange(0, i as int),
        decreases n - i,
    {
        if a.get_char(i) != b.get_char(i) {
            assert(a@[i as int] != b@[i as int]);
            return false;
        }
        assert(a@.subrange(0, i + 1) =~= a@.subrange(0, i as int).push(a@[i as int]));
        assert(b@.subrange(0, i + 1) =~= b@.subrange(0, i as int).push(b@[i as int]));
        i = i + 1;
    }
    assert(a@ =~= a@.subrange(0, n as int));
    assert(b@ =~= b@.subrange(0, n as int));
    true
}

/// Whether `p` is a prefix of `s`.
pub open spec fn is_prefix(p: Seq<char>, s: Seq<char>) -> bool {
    p.len() <= s.len() && s.subrange(0, p.len() as int) == p
}

/// Whether `s` starts with `p`.
pub fn starts_with(s: &str, p: &str) -> (b: bool)
    ensures
        b == is_prefix(p@, s@),
{
    let n = p.unicode_len();
    if n > s.unicode_len() {
        return false;
    }
    let mut i: usize = 0;
    while i < n
        invariant
            n == p@.len(),
            n <= s@.len(),
            i <= n,
            s@.subrange(0, i as int) == p@.subrange(0, i as int),
        decreases n - i,
    {
        if s.get_char(i) != p.get_char(i) {
            assert(s@.subrange(0, n as int)[i as int] != p@[i as int]);
            return false;
        }
        assert(s@.subrange(0, i + 1) =~= s@.subrange(0, i as int).push(s@[i as int]));
        assert(p@.subrange(0, i + 1) =~= p@.subrange(0, i as int).push(p@[i as int]));
        i = i + 1;
    }
    assert(p@ =~= p@.subrange(0, n as int));
    true
}

/// Appends `c` to `s` (`String::push`).
#[verifier::external_body]
pub fn push_char(s: &mut String, c: char)
    ensures
        final(s)@ == old(s)@.push(c),
{
    s.push(c);
}

/// A string holding `chars`.
pub fn string_from_chars(chars: &[char]) -> (s: String)
    ensures
        s@ == chars@,
{
    let mut s = String::new();
    let mut i: usize = 0;
    while i < chars.len()
        invariant
            i <= chars@.len(),
            s@ == chars@.subrange(0, i as int),
        decreases chars@.len() - i,
    {
        push_char(&mut s, chars[i]);
        assert(s@ =~= chars@.subrange(0, i + 1));
        i = i + 1;
    }
    assert(chars@ =~= chars@.subrange(0, chars@.len() as int));
    s
}

/// What `String::from_utf8_lossy` makes of `bytes`: the text they encode, with each
/// maximal ill-formed part replaced by U+FFFD.
pub uninterp spec fn utf8_lossy(bytes: Seq<u8>) -> Seq<char>;

/// The characters of `String::from_utf8_lossy(Bytes)`. Its documentation gives the text
/// itself for valid UTF-8; for other input only that the result is named by `utf8_lossy`.
#[verifier::external_body]
pub fn decode_lossy(Bytes: &[u8]) -> (chars: Vec<char>)
    ensures
        chars@ == utf8_lossy(Bytes@),
        vstd::utf8::valid_utf8(Bytes@) ==> chars@ == vstd::utf8::decode_utf8(Bytes@),
{
    String::from_utf8_lossy(Bytes).chars().collect()
}

/// Number of bytes of `bytes` equal to `b`.
pub open spec fn count_byte(bytes: Seq<u8>, b: u8) -> nat
    decreases bytes.len(),
{
    if bytes.len() == 0 {
        0
    } else {
        count_byte(bytes.drop_last(), b) + if bytes.last() == b { 1nat } else { 0nat }
    }
}

/// Number of maximal runs of characters that are not white space (what
/// `split_whitespace().count()` gives).
pub open spec fn word_count(cs: Seq<char>) -> nat
    decreases cs.len(),
{
    if cs.len() == 0 {
        0
    } else {
        word_count(cs.drop_last()) + if !is_white_space(cs.last()) && (cs.len() == 1 || is_white_space(cs[cs.len() - 2])) {
            1nat
        } else {
            0nat
        }
    }
}

/// Display width of the text after the last line feed: a tab moves on to the next multiple
/// of 8, every other character takes one column.
pub open spec fn last_line_width(cs: Seq<char>) -> nat
    decreases cs.len(),
{
    if cs.len() == 0 {
        0
    } else if cs.last() == '\n' {
        0
    } else if cs.last() == '\t' {
        let w = last_line_width(cs.drop_last());
        (w + 8 - w % 8) as nat
    } else {
        last_line_width(cs.drop_last()) + 1
    }
}

/// The maximum display width over the lines of `cs` (the pieces that `split('\n')` cuts).
pub open spec fn max_line_width(cs: Seq<char>) -> nat
    decreases cs.len(),
{
    if cs.len() == 0 {
        0
    } else {
        let m = max_line_width(cs.drop_last());
        let l = last_line_width(cs);
        if l > m { l } else { m }
    }
}

proof fn lemma_count_byte_bound(bytes: Seq<u8>, b: u8)
    ensures
        count_byte(bytes, b) <= bytes.len(),
    decreases bytes.len(),
{
    if bytes.len() > 0 {
        lemma_count_byte_bound(bytes.drop_last(), b);
    }
}

proof fn lemma_word_count_bound(cs: Seq<char>)
    ensures
        word_count(cs) <= cs.len(),
    decreases cs.len(),
{
    if cs.len() > 0 {
        lemma_word_count_bound(cs.drop_last());
    }
}

proof fn lemma_line_bounds(cs: Seq<char>)
    ensures
        last_line_width(cs) <= 8 * cs.len(),
        max_line_width(cs) <= 8 * cs.len(),
    decreases cs.len(),
{
    if cs.len() > 0 {
        lemma_line_bounds(cs.drop_last());
    }
}

/// Number of bytes of `Bytes` equal to `b`.
pub fn CountByte(Bytes: &[u8], b: u8) -> (n: u64)
    ensures
        n == count_byte(Bytes@, b),
{
    let mut n: u64 = 0;
    let mut i: usize = 0;
    while i < Bytes.len()
        invariant
            i <= Bytes@.len(),
            n == count_byte(Bytes@.subrange(0, i as int), b),
        decreases Bytes@.len() - i,
    {
        proof {
            assert(Bytes@.subrange(0, i + 1).drop_last() =~= Bytes@.subrange(0, i as int));
            lemma_count_byte_bound(Bytes@.subrange(0, i as int), b);
        }
        if Bytes[i] == b {
            n = n + 1;
        }
        i = i + 1;
    }
    assert(Bytes@.subrange(0, Bytes@.len() as int) =~= Bytes@);
    n
}

/// Number of words in `cs`.
pub fn WordCount(cs: &[char]) -> (n: u64)
    ensures
        n == word_count(cs@),
{
    let mut n: u64 = 0;
    let mut i: usize = 0;
    let mut InWord = false;
    while i < cs.len()
        invariant
            i <= cs@.len(),
            n == word_count(cs@.subrange(0, i as int)),
            InWord == (i > 0 && !is_white_space(cs@[i - 1])),
        decreases cs@.len() - i,
    {
        proof {
            let pre = cs@.subrange(0, i + 1);
            assert(pre.drop_last() =~= cs@.subrange(0, i as int));
            lemma_word_count_bound(cs@.subrange(0, i as int));
        }
        let White = IsWhiteSpace(cs[i]);
        if !White && !InWord {
            n = n + 1;
        }
        InWord = !White;
        i = i + 1;
    }
    assert(cs@.subrange(0, cs@.len() as int) =~= cs@);
    n
}

/// The maximum display width over the lines of `cs`: a tab moves on to the next multiple of
/// 8, every other character takes one column.
pub fn MaxLineWidth(cs: &[char]) -> (n: u128)
    ensures
        n == max_line_width(cs@),
{
    let mut Max: u128 = 0;
    let mut Current: u128 = 0;
    let mut i: usize = 0;
    while i < cs.len()
        invariant
            i <= cs@.len(),
            Max == max_line_width(cs@.subrange(0, i as int)),
            Current == last_line_width(cs@.subrange(0, i as int)),
        decreases cs@.len() - i,
    {
        proof {
            let pre = cs@.subrange(0, i + 1);
            assert(pre.drop_last() =~= cs@.subrange(0, i as int));
            lemma_line_bounds(cs@.subrange(0, i as int));
        }
        if cs[i] == '\n' {
            Current = 0;
        } else if cs[i] == '\t' {
            Current = Current + 8 - Current % 8;
        } else {
            Current = Current + 1;
        }
        if Current > Max {
            Max = Current;
        }
        i = i + 1;
    }
    assert(cs@.subrange(0, cs@.len() as int) =~= cs@);
    Max
}

/// `cs` without its leading white space.
pub open spec fn trim_start(cs: Seq<char>) -> Seq<char>
    decreases cs.len(),
{
    if cs.len() > 0 && is_white_space(cs[0]) { trim_start(cs.drop_first()) } else { cs }
}

/// `cs` without its trailing white space.
pub open spec fn trim_end(cs: Seq<char>) -> Seq<char>
    decreases cs.len(),
{
    if cs.len() > 0 && is_white_space(cs.last()) { trim_end(cs.drop_last()) } else { cs }
}

/// `cs` without leading and trailing white space (what `str::trim` gives).
pub open spec fn trim(cs: Seq<char>) -> Seq<char> {
    trim_end(trim_start(cs))
}

proof fn lemma_trim_start_skip(cs: Seq<char>, i: int)
    requires
        0 <= i <= cs.len(),
        forall|j: int| 0 <= j < i ==> is_white_space(#[trigger] cs[j]),
    ensures
        trim_start(cs) == trim_start(cs.subrange(i, cs.len() as int)),
    decreases i,
{
    if i > 0 {
        assert(cs.drop_first().subrange(i - 1, cs.drop_first().len() as int) =~= cs.subrange(i, cs.len() as int));
        lemma_trim_start_skip(cs.drop_first(), i - 1);
    } else {
        assert(cs.subrange(0, cs.len() as int) =~= cs);
    }
}

proof fn lemma_trim_end_skip(cs: Seq<char>, e: int)
    requires
        0 <= e <= cs.len(),
        forall|j: int| e <= j < cs.len() ==> is_white_space(#[trigger] cs[j]),
    ensures
        trim_end(cs) == trim_end(cs.subrange(0, e)),
    decreases cs.len() - e,
{
    if e < cs.len() {
        assert(cs.drop_last().subrange(0, e) =~= cs.subrange(0, e));
        lemma_trim_end_skip(cs.drop_last(), e);
    } else {
        assert(cs.subrange(0, e) =~= cs);
    }
}

/// `cs` without leading and trailing white space.
pub fn trim_chars(cs: &[char]) -> (r: Vec<char>)
    ensures
        r@ == trim(cs@),
{
    let mut Start: usize = 0;
    while Start < cs.len() && IsWhiteSpace(cs[Start])
        invariant
            Start <= cs@.len(),
            forall|j: int| 0 <= j < Start ==> is_white_space(#[trigger] cs@[j]),
        decreases cs@.len() - Start,
    {
        Start = Start + 1;
    }
    proof {
        lemma_trim_start_skip(cs@, Start as int);
    }
    let ghost rest = cs@.subrange(Start as int, cs@.len() as int);
    assert(trim_start(rest) == rest);
    let mut End: usize = cs.len();
    while End > Start && IsWhiteSpace(cs[End - 1])
        invariant
            Start <= End <= cs@.len(),
            rest == cs@.subrange(Start as int, cs@.len() as int),
            forall|j: int| End <= j < cs@.len() ==> is_white_space(#[trigger] cs@[j]),
        decreases End,
    {
        End = End - 1;
    }
    proof {
        assert forall|j: int| End - Start <= j < rest.len() implies is_white_space(#[trigger] rest[j]) by {
            assert(rest[j] == cs@[j + Start]);
        }
        lemma_trim_end_skip(rest, End - Start);
        assert(rest.subrange(0, End - Start) =~= cs@.subrange(Start as int, End as int));
        let kept = cs@.subrange(Start as int, End as int);
        if kept.len() > 0 {
            assert(kept.last() == cs@[End - 1]);
        }
    }
    let mut r: Vec<char> = Vec::new();
    let mut i: usize = Start;
    while i < End
        invariant
            Start <= i <= End <= cs@.len(),
            r@ == cs@.subrange(Start as int, i as int),
        decreases End - i,
    {
        r.push(cs[i]);
        assert(r@ =~= cs@.subrange(Start as int, i + 1));
        i = i + 1;
    }
    r
}

/// Counting a byte over two pieces gives the sum of the counts over each.
pub proof fn law_count_byte_adds(a: Seq<u8>, b: Seq<u8>, x: u8)
    ensures
        count_byte(a + b, x) == count_byte(a, x) + count_byte(b, x),
    decreases b.len(),
{
    if b.len() == 0 {
        assert(a + b =~= a);
    } else {
        law_count_byte_adds(a, b.drop_last(), x);
        assert((a + b).drop_last() =~= a + b.drop_last());
    }
}

/// Words are counted per piece: two texts joined by a white-space character hold the words
/// of the first plus the words of the second.
pub proof fn law_words_add(a: Seq<char>, w: char, b: Seq<char>)
    requires
        is_white_space(w),
    ensures
        word_count(a + seq![w] + b) == word_count(a) + word_count(b),
    decreases b.len(),
{
    let j = a + seq![w] + b;
    if b.len() == 0 {
        assert(j =~= a.push(w));
        assert(j.drop_last() =~= a);
    } else {
        law_words_add(a, w, b.drop_last());
        assert(j.drop_last() =~= a + seq![w] + b.drop_last());
        if b.len() == 1 {
            assert(j[j.len() - 2] == w);
        } else {
            assert(j[j.len() - 2] == b[b.len() - 2]);
        }
    }
}

/// A line feed ends a line: the text after it is as wide as it would be alone.
pub proof fn law_line_restarts(a: Seq<char>, b: Seq<char>)
    ensures
        last_line_width(a + seq!['\n'] + b) == last_line_width(b),
    decreases b.len(),
{
    let j = a + seq!['\n'] + b;
    if b.len() == 0 {
        assert(j =~= a.push('\n'));
    } else {
        law_line_restarts(a, b.drop_last());
        assert(j.drop_last() =~= a + seq!['\n'] + b.drop_last());
    }
}

/// The longest line of two texts joined by a line feed is the longer of their longest lines.
pub proof fn law_longest_line_of_joined(a: Seq<char>, b: Seq<char>)
    ensures
        max_line_width(a + seq!['\n'] + b) == if max_line_width(a) >= max_line_width(b) {
            max_line_width(a)
        } else {
            max_line_width(b)
        },
    decreases b.len(),
{
    let j = a + seq!['\n'] + b;
    law_line_restarts(a, b);
    if b.len() == 0 {
        assert(j =~= a.push('\n'));
        assert(j.drop_last() =~= a);
    } else {
        law_longest_line_of_joined(a, b.drop_last());
        assert(j.drop_last() =~= a + seq!['\n'] + b.drop_last());
    }
}

/// Widths grow by display columns: a tab moves on to the next multiple of 8 (one to eight
/// columns), any other character but the line feed takes one column, a line feed starts a
/// new line of width 0.
pub proof fn law_line_width_step(s: Seq<char>, c: char)
    ensures
        c == '\t' ==> last_line_width(s.push(c)) % 8 == 0
            && last_line_width(s) < last_line_width(s.push(c)) <= last_line_width(s) + 8,
        c == '\n' ==> last_line_width(s.push(c)) == 0,
        c != '\t' && c != '\n' ==> last_line_width(s.push(c)) == last_line_width(s) + 1,
        max_line_width(s.push(c)) >= max_line_width(s),
        max_line_width(s.push(c)) >= last_line_width(s.push(c)),
{
    assert(s.push(c).drop_last() =~= s);
}

proof fn lemma_trim_start_cut(cs: Seq<char>) -> (a: int)
    ensures
        0 <= a <= cs.len(),
        trim_start(cs) == cs.subrange(a, cs.len() as int),
        forall|k: int| 0 <= k < a ==> is_white_space(#[trigger] cs[k]),
        a < cs.len() ==> !is_white_space(cs[a]),
    decreases cs.len(),
{
    if cs.len() > 0 && is_white_space(cs[0]) {
        let r = cs.drop_first();
        let a1 = lemma_trim_start_cut(r);
        assert(r.subrange(a1, r.len() as int) =~= cs.subrange(a1 + 1, cs.len() as int));
        assert forall|k: int| 0 <= k < a1 + 1 implies is_white_space(#[trigger] cs[k]) by {
            if k > 0 {
                assert(cs[k] == r[k - 1]);
            }
        }
        a1 + 1
    } else {
        assert(cs.subrange(0, cs.len() as int) =~= cs);
        0
    }
}

proof fn lemma_trim_end_cut(cs: Seq<char>) -> (b: int)
    ensures
        0 <= b <= cs.len(),
        trim_end(cs) == cs.subrange(0, b),
        forall|k: int| b <= k < cs.len() ==> is_white_space(#[trigger] cs[k]),
        b > 0 ==> !is_white_space(cs[b - 1]),
    decreases cs.len(),
{
    if cs.len() > 0 && is_white_space(cs.last()) {
        let r = cs.drop_last();
        let b1 = lemma_trim_end_cut(r);
        assert(r.subrange(0, b1) =~= cs.subrange(0, b1));
        assert forall|k: int| b1 <= k < cs.len() implies is_white_space(#[trigger] cs[k]) by {
            if k < cs.len() - 1 {
                assert(cs[k] == r[k]);
            }
        }
        b1
    } else {
        assert(cs.subrange(0, cs.len() as int) =~= cs);
        cs.len() as int
    }
}

/// Trimming cuts white space off both ends and nothing else: the result is a piece of the
/// text from `a` to `b`, everything outside it is white space, and the piece neither starts
/// nor ends with white space.
pub proof fn law_trim_cuts_white_space_ends(cs: Seq<char>)
    ensures
        exists|a: int, b: int| {
            &&& 0 <= a <= b <= cs.len()
            &&& #[trigger] cs.subrange(a, b) == trim(cs)
            &&& forall|k: int| 0 <= k < cs.len() && !(a <= k < b) ==> is_white_space(#[trigger] cs[k])
        },
        trim(cs).len() > 0 ==> !is_white_space(trim(cs)[0]) && !is_white_space(trim(cs).last()),
{
    let a = lemma_trim_start_cut(cs);
    let t = trim_start(cs);
    let b1 = lemma_trim_end_cut(t);
    let b = a + b1;
    assert(t.subrange(0, b1) =~= cs.subrange(a, b));
    assert forall|k: int| 0 <= k < cs.len() && !(a <= k < b) implies is_white_space(#[trigger] cs[k]) by {
        if k >= b {
            assert(cs[k] == t[k - a]);
        }
    }
    if trim(cs).len() > 0 {
        assert(trim(cs)[0] == t[0]);
        assert(t[0] == cs[a]);
        assert(trim(cs).last() == t[b1 - 1]);
    }
    assert(cs.subrange(a, b) == trim(cs));
}

} // verus!
