//! Taking out what joining segments repeats.

use vstd::prelude::*;

use crate::chars;
use crate::overlap;

verus! {

/// The `d` characters from `i` on come twice.
pub open spec fn is_doubled(s: Seq<char>, i: int, d: int) -> bool {
    &&& i + 2 * d <= s.len()
    &&& forall|j: int| i <= j < i + d ==> #[trigger] s[j] == s[j + d]
}

/// The longest run of two to `d` characters from `i` on that comes twice, or 0.
pub open spec fn doubled_length(s: Seq<char>, i: int, d: int) -> int
    decreases d,
{
    if d < 2 {
        0
    } else if is_doubled(s, i, d) {
        d
    } else {
        doubled_length(s, i, d - 1)
    }
}

/// A character that separates an echo: punctuation, or a like mark.
pub open spec fn is_separator(c: char) -> bool {
    chars::is_punctuation(c) || c == '。' || c == '、' || c == '♦'
}

/// The character at `i` comes again after one separator.
pub open spec fn is_echo(s: Seq<char>, i: int) -> bool {
    i + 2 < s.len() && s[i] == s[i + 2] && is_separator(s[i + 1])
}

/// The text from `i` on, with what comes twice made single.
pub open spec fn undoubled(s: Seq<char>, i: int) -> Seq<char>
    decreases (if i < s.len() { s.len() - i } else { 0 }),
{
    if i >= s.len() {
        Seq::empty()
    } else {
        let d = doubled_length(s, i, 5);
        if d > 0 {
            s.subrange(i, i + d) + undoubled(s, i + 2 * d)
        } else if is_echo(s, i) {
            seq![s[i]] + undoubled(s, i + 3)
        } else {
            seq![s[i]] + undoubled(s, i + 1)
        }
    }
}

fn find_doubled(s: &Vec<char>, i: usize) -> (d: usize)
    requires
        i < s.len(),
    ensures
        d == doubled_length(s@, i as int, 5),
        d > 0 ==> d >= 2 && is_doubled(s@, i as int, d as int),
{
    let mut d: usize = 5;
    while d >= 2
        invariant
            1 <= d <= 5,
            i < s.len(),
            doubled_length(s@, i as int, 5) == doubled_length(s@, i as int, d as int),
        decreases d,
    {
        if d * 2 <= s.len() - i {
            let mut j: usize = 0;
            while j < d && s[i + j] == s[i + j + d]
                invariant
                    j <= d,
                    d <= 5,
                    i + 2 * d <= s.len(),
                    forall|m: int| i <= m < i + j ==> #[trigger] s[m] == s[m + d],
                decreases d - j,
            {
                j = j + 1;
            }
            if j == d {
                assert(is_doubled(s@, i as int, d as int));
                return d;
            }
            assert(s@[i + j] != s@[i + j + d]);
        }
        d = d - 1;
    }
    0
}

fn separates(c: char) -> (yes: bool)
    ensures
        yes == is_separator(c),
{
    chars::punctuation(c) || c == '。' || c == '、' || c == '♦'
}

/// Makes single what comes twice in a merged text.
pub fn post_process_duplicates(text: &str) -> (out: String)
    ensures
        out@ == undoubled(text@, 0),
{
    let s = chars::chars_of(text);
    let mut out: Vec<char> = Vec::new();
    let mut i: usize = 0;
    assert(out@ + undoubled(s@, 0) =~= undoubled(s@, 0));
    while i < s.len()
        invariant
            i <= s.len(),
            out@ + undoubled(s@, i as int) == undoubled(s@, 0),
        decreases s.len() - i,
    {
        let ghost before = out@;
        let d = find_doubled(&s, i);
        if d > 0 {
            let part = chars::slice_of(&s, i, i + d);
            chars::append_from(&mut out, &part, 0);
            assert(out@ + undoubled(s@, i + 2 * d) =~= before + undoubled(s@, i as int));
            i = i + d * 2;
        } else if s.len() - i > 2 && s[i] == s[i + 2] && separates(s[i + 1]) {
            out.push(s[i]);
            assert(out@ + undoubled(s@, i + 3) =~= before + undoubled(s@, i as int));
            i = i + 3;
        } else {
            out.push(s[i]);
            assert(out@ + undoubled(s@, i + 1) =~= before + undoubled(s@, i as int));
            i = i + 1;
        }
    }
    assert(out@ =~= undoubled(s@, 0));
    chars::text_of(&out)
}

/// A character that is often misread at a joint.
pub open spec fn is_noise(c: char) -> bool {
    c == ':' || c == '1' || c == '芮' || c == 'í' || c == 'ì' || c == '兹' || c == '戎' || c == '讨' || c == '˙'
}

/// Tells whether a character is often misread at a joint.
pub fn is_likely_ocr_noise(c: char) -> (yes: bool)
    ensures
        yes == is_noise(c),
{
    c == ':' || c == '1' || c == '芮' || c == 'í' || c == 'ì' || c == '兹' || c == '戎' || c == '讨' || c == '˙'
}

/// Two characters at `i` come twice.
pub open spec fn is_pair_doubled(s: Seq<char>, i: int) -> bool {
    i + 3 < s.len() && s[i] == s[i + 2] && s[i + 1] == s[i + 3]
}

/// The character at `i` comes again after one that is often misread.
pub open spec fn is_noisy_echo(s: Seq<char>, i: int) -> bool {
    i + 2 < s.len() && s[i] == s[i + 2] && !chars::is_punctuation(s[i]) && is_noise(s[i + 1])
}

/// The text from `i` on: of a doubled pair both characters once, of a noisy echo
/// the first character alone.
pub open spec fn echoes_out(s: Seq<char>, i: int) -> Seq<char>
    decreases s.len() - i,
{
    if i >= s.len() {
        Seq::empty()
    } else if is_pair_doubled(s, i) {
        seq![s[i], s[i + 1]] + echoes_out(s, i + 4)
    } else if is_noisy_echo(s, i) {
        seq![s[i]] + echoes_out(s, i + 3)
    } else {
        seq![s[i]] + echoes_out(s, i + 1)
    }
}

/// The text without the echoes of its joints.
pub open spec fn unechoed(s: Seq<char>) -> Seq<char> {
    echoes_out(s, 0)
}

/// Takes the echoes of joints out.
pub fn remove_echoes(s: &Vec<char>) -> (out: Vec<char>)
    ensures
        out@ == unechoed(s@),
{
    let mut out: Vec<char> = Vec::new();
    let mut i: usize = 0;
    assert(out@ + echoes_out(s@, 0) =~= echoes_out(s@, 0));
    while i < s.len()
        invariant
            i <= s.len(),
            out@ + echoes_out(s@, i as int) == echoes_out(s@, 0),
        decreases s.len() - i,
    {
        let ghost before = out@;
        let left: usize = s.len() - i;
        out.push(s[i]);
        if left > 3 && s[i] == s[i + 2] && s[i + 1] == s[i + 3] {
            out.push(s[i + 1]);
            assert(out@ + echoes_out(s@, i + 4) =~= before + echoes_out(s@, i as int));
            i = i + 4;
        } else if left > 2 && s[i] == s[i + 2] && !chars::punctuation(s[i]) && is_likely_ocr_noise(s[i + 1]) {
            assert(out@ + echoes_out(s@, i + 3) =~= before + echoes_out(s@, i as int));
            i = i + 3;
        } else {
            assert(out@ + echoes_out(s@, i + 1) =~= before + echoes_out(s@, i as int));
            i = i + 1;
        }
    }
    assert(out@ =~= echoes_out(s@, 0));
    out
}

/// Takes the echoes of joints out of a text.
pub fn remove_boundary_duplicates(text: &str) -> (out: String)
    ensures
        out@ == unechoed(text@),
{
    let out = remove_echoes(&chars::chars_of(text));
    chars::text_of(&out)
}

/// A CJK character: unified, of extension A, or a compatibility ideograph.
pub open spec fn is_cjk_char(c: char) -> bool {
    chars::is_ideograph(c) || chars::is_rare_ideograph(c) || '\u{F900}' <= c <= '\u{FAFF}'
}

/// Tells whether a character is CJK.
pub fn is_cjk(c: char) -> (yes: bool)
    ensures
        yes == is_cjk_char(c),
{
    chars::ideograph(c) || chars::rare_ideograph(c) || ('\u{F900}' <= c && c <= '\u{FAFF}')
}

/// A letter or bracket that edges are often read as.
pub open spec fn is_artifact(c: char) -> bool {
    c == 'e' || c == 'i' || c == 'l' || c == 'I' || c == 'o' || c == 'O' || c == '(' || c == ')' || c == '[' || c == ']'
}

/// A character among which a lone artifact is no text.
pub open spec fn isolates(c: char) -> bool {
    is_cjk_char(c) || c == ',' || c == '。' || c == '、'
}

/// The character at `i` is an artifact that stands alone between CJK text,
/// commas or stops.
pub open spec fn is_lone_artifact(s: Seq<char>, i: int) -> bool {
    &&& is_artifact(s[i])
    &&& 0 < i < s.len() - 1
    &&& {
        ||| isolates(s[i - 1]) && isolates(s[i + 1])
        ||| (s[i - 1] == ',' || s[i - 1] == '，') && (s[i + 1] == ',' || s[i + 1] == '，')
    }
}

fn does_isolate(c: char) -> (yes: bool)
    ensures
        yes == isolates(c),
{
    is_cjk(c) || c == ',' || c == '。' || c == '、'
}

/// Tells whether the character at `i` is an artifact that stands alone.
pub fn is_junk_char_at_boundary(s: &Vec<char>, i: usize) -> (yes: bool)
    requires
        i < s.len(),
    ensures
        yes == is_lone_artifact(s@, i as int),
{
    let c = s[i];
    if !(c == 'e' || c == 'i' || c == 'l' || c == 'I' || c == 'o' || c == 'O' || c == '(' || c == ')' || c == '[' || c
        == ']') {
        return false;
    }
    if i == 0 || i >= s.len() - 1 {
        return false;
    }
    let prev = s[i - 1];
    let next = s[i + 1];
    if does_isolate(prev) && does_isolate(next) {
        return true;
    }
    (prev == ',' || prev == '，') && (next == ',' || next == '，')
}

/// The value of a digit.
pub open spec fn digit_value(c: char) -> int {
    c as int - '0' as int
}

/// The value of the four digits from `i` on.
pub open spec fn year_value(s: Seq<char>, i: int) -> int {
    digit_value(s[i]) * 1000 + digit_value(s[i + 1]) * 100 + digit_value(s[i + 2]) * 10 + digit_value(s[i + 3])
}

/// The four digits at offset `y` of the number at `start` are a year that the
/// digits before it begin.
pub open spec fn begun_before(s: Seq<char>, start: int, y: int) -> bool {
    &&& 1900 <= year_value(s, start + y) <= 2100
    &&& 2 <= y <= 4
    &&& forall|j: int| 0 <= j < y ==> #[trigger] s[start + j] == s[start + y + j]
}

/// The four digits at offset `y` of the number at `start`, of `n` digits, are a
/// year whose end the digits after it repeat.
pub open spec fn repeated_after(s: Seq<char>, start: int, n: int, y: int) -> bool {
    let rest = n - y - 4;
    &&& 1900 <= year_value(s, start + y) <= 2100
    &&& 0 < rest <= 4
    &&& forall|j: int| 0 <= j < rest ==> #[trigger] s[start + y + 4 + j] == s[start + y + 4 - rest + j]
}

/// How many zeros the digits from `start` up to `end` close with.
pub open spec fn closing_zeros(s: Seq<char>, start: int, end: int) -> nat
    decreases end - start,
{
    if start < end && s[end - 1] == '0' {
        closing_zeros(s, start, end - 1) + 1
    } else {
        0
    }
}

/// The year in the number at `start` from offset `y` on, with how many digits
/// it stands for.
pub open spec fn year_from(s: Seq<char>, start: int, n: int, y: int) -> Option<(Seq<char>, int)>
    decreases n - y,
{
    if y > n - 4 {
        None
    } else if begun_before(s, start, y) {
        Some((s.subrange(start + y, start + y + 4), y + 4))
    } else if repeated_after(s, start, n, y) {
        Some((s.subrange(start + y, start + y + 4), n))
    } else {
        year_from(s, start, n, y + 1)
    }
}

/// `k` zeros.
pub open spec fn zeros(k: nat) -> Seq<char> {
    Seq::new(k, |i: int| '0')
}

/// The six digits at `start` are a year of which the last two digits were read
/// again, at least one of them the same.
pub open spec fn is_read_again(s: Seq<char>, start: int) -> bool {
    &&& s[start + 2] == s[start + 4] || s[start + 3] == s[start + 5]
    &&& 1900 <= year_value(read_again(s, start), 0) <= 2100
}

/// The year in six digits of which the last two were read again: its last digit
/// is that of the second reading.
pub open spec fn read_again(s: Seq<char>, start: int) -> Seq<char> {
    s.subrange(start, start + 3).push(s[start + 5])
}

/// What a number at `start` is mended to, and how many digits that replaces.
/// Of six digits or more that hold a year and part of it again, the year is
/// left; of five or more that close with three zeros or more, half the zeros;
/// of six that are a year with its last two digits read again, the year.
pub open spec fn mended_number(s: Seq<char>, start: int) -> Option<(Seq<char>, int)> {
    let n = overlap::digits_from(s, start) as int;
    let closing = closing_zeros(s, start, start + n) as int;
    if n >= 6 && year_from(s, start, n, 0) is Some {
        year_from(s, start, n, 0)
    } else if n >= 5 && closing >= 3 {
        Some((s.subrange(start, start + n - closing) + zeros(((closing + 1) / 2) as nat), n))
    } else if n == 6 && is_read_again(s, start) {
        Some((read_again(s, start), 6))
    } else {
        None
    }
}

fn is_year(s: &Vec<char>, i: usize) -> (yes: bool)
    requires
        i + 4 <= s.len(),
        forall|j: int| i <= j < i + 4 ==> chars::is_digit(#[trigger] s[j]),
    ensures
        yes == (1900 <= year_value(s@, i as int) <= 2100),
{
    assert(chars::is_digit(s[i as int]) && chars::is_digit(s[i + 1]) && chars::is_digit(s[i + 2]) && chars::is_digit(
        s[i + 3],
    ));
    let year: u32 = (s[i] as u32 - '0' as u32) * 1000 + (s[i + 1] as u32 - '0' as u32) * 100 + (s[i + 2] as u32
        - '0' as u32) * 10 + (s[i + 3] as u32 - '0' as u32);
    1900 <= year && year <= 2100
}

fn same_range(s: &Vec<char>, a: usize, b: usize, len: usize) -> (same: bool)
    requires
        a + len <= s.len(),
        b + len <= s.len(),
    ensures
        same == (forall|j: int| 0 <= j < len ==> #[trigger] s[a + j] == s[b + j]),
{
    let mut j: usize = 0;
    while j < len
        invariant
            j <= len,
            a + len <= s.len(),
            b + len <= s.len(),
            forall|m: int| 0 <= m < j ==> #[trigger] s[a + m] == s[b + m],
        decreases len - j,
    {
        if s[a + j] != s[b + j] {
            assert(s[a + j as int] != s[b + j as int]);
            return false;
        }
        j = j + 1;
    }
    true
}

/// Mends a number in which the joining of segments repeated digits. Returns
/// what it becomes and how many digits that replaces.
pub fn clean_number_at_position(s: &Vec<char>, start: usize) -> (mended: Option<(Vec<char>, usize)>)
    requires
        start <= s.len(),
    ensures
        match mended {
            Some((digits, count)) => mended_number(s@, start as int) == Some((digits@, count as int)) && 0 < count
                && start + count <= s.len(),
            None => mended_number(s@, start as int) is None,
        },
{
    let n = overlap::count_digits(s, start);
    if n < 5 {
        return None;
    }
    if n >= 6 {
        let mut y: usize = 0;
        while y <= n - 4
            invariant
                6 <= n,
                start + n <= s.len(),
                y <= n - 3,
                n == overlap::digits_from(s@, start as int),
                forall|j: int| start <= j < start + n ==> chars::is_digit(#[trigger] s[j]),
                year_from(s@, start as int, n as int, 0) == year_from(s@, start as int, n as int, y as int),
            decreases n - y,
        {
            if is_year(s, start + y) {
                if y >= 2 && y <= 4 && same_range(s, start, start + y, y) {
                    assert(begun_before(s@, start as int, y as int)) by {
                        assert forall|j: int| 0 <= j < y implies #[trigger] s@[start + j] == s@[start + y + j] by {
                            assert(s[start + j] == s[start + y + j]);
                        }
                    }
                    let year = chars::slice_of(s, start + y, start + y + 4);
                    return Some((year, y + 4));
                }
                let rest: usize = n - y - 4;
                proof {
                    if begun_before(s@, start as int, y as int) {
                        assert(forall|j: int| 0 <= j < y ==> #[trigger] s[start + j] == s[start + y + j]);
                    }
                }
                if rest > 0 && rest <= 4 && same_range(s, start + y + 4, start + y + 4 - rest, rest) {
                    assert(repeated_after(s@, start as int, n as int, y as int)) by {
                        assert forall|j: int| 0 <= j < rest implies #[trigger] s@[start + y + 4 + j] == s@[start + y + 4
                            - rest + j] by {
                            assert(s[(start + y + 4) + j] == s[(start + y + 4 - rest) + j]);
                        }
                    }
                    let year = chars::slice_of(s, start + y, start + y + 4);
                    return Some((year, n));
                }
                proof {
                    if repeated_after(s@, start as int, n as int, y as int) {
                        assert forall|j: int| 0 <= j < rest implies #[trigger] s[(start + y + 4) + j] == s[(start + y + 4
                            - rest) + j] by {
                            assert(s@[start + y + 4 + j] == s@[start + y + 4 - rest + j]);
                        }
                    }
                }
            }
            y = y + 1;
        }
    }
    let mut end: usize = start + n;
    while end > start && s[end - 1] == '0'
        invariant
            start <= end <= start + n,
            start + n <= s.len(),
            closing_zeros(s@, start as int, start + n) == closing_zeros(s@, start as int, end as int) + (start + n - end),
        decreases end - start,
    {
        end = end - 1;
    }
    let closing: usize = start + n - end;
    if closing >= 3 {
        let mut digits = chars::slice_of(s, start, end);
        let ghost base = digits@;
        let keep: usize = (closing - 1) / 2 + 1;
        let mut k: usize = 0;
        while k < keep
            invariant
                k <= keep,
                digits@ == base + zeros(k as nat),
            decreases keep - k,
        {
            digits.push('0');
            k = k + 1;
            assert(digits@ =~= base + zeros(k as nat));
        }
        return Some((digits, n));
    }
    if n == 6 && (s[start + 2] == s[start + 4] || s[start + 3] == s[start + 5]) {
        let mut year = chars::slice_of(s, start, start + 3);
        year.push(s[start + 5]);
        assert(forall|j: int| start <= j < start + 6 ==> chars::is_digit(#[trigger] s[j]));
        assert(year[0] == s[start as int] && year[1] == s[start + 1] && year[2] == s[start + 2]);
        if is_year(&year, 0) {
            return Some((year, 6));
        }
    }
    None
}

/// The end of the run of equal characters that holds `i`.
pub open spec fn run_end(s: Seq<char>, i: int, j: int) -> int
    decreases s.len() - j,
{
    if 0 <= j < s.len() && s[j] == s[i] {
        run_end(s, i, j + 1)
    } else {
        j
    }
}

/// Where the text goes on after the character at `i` was kept: behind its echo,
/// behind its run of three or more if it is no digit, or at the next character.
pub open spec fn after_kept(s: Seq<char>, i: int) -> int {
    let c = s[i];
    let end = run_end(s, i, i + 1);
    if i + 2 < s.len() && c == s[i + 2] && !chars::is_punctuation(c) && !chars::whitespace(c) && chars::is_punctuation(
        s[i + 1],
    ) {
        i + 3
    } else if end - i > 2 && !chars::is_digit(c) {
        end
    } else {
        i + 1
    }
}

proof fn lemma_run_end(s: Seq<char>, i: int, j: int)
    requires
        0 <= i < j <= s.len(),
    ensures
        j <= run_end(s, i, j) <= s.len(),
    decreases s.len() - j,
{
    if j < s.len() && s[j] == s[i] {
        lemma_run_end(s, i, j + 1);
    }
}

/// The text from `i` on without lone artifacts, with numbers mended and echoes
/// and long runs made single.
pub open spec fn repeats_out(s: Seq<char>, i: int) -> Seq<char>
    decreases (if i < s.len() { s.len() - i } else { 0 }),
{
    if i < 0 || i >= s.len() {
        Seq::empty()
    } else if is_lone_artifact(s, i) {
        repeats_out(s, i + 1)
    } else if chars::is_digit(s[i]) && mended_number(s, i) is Some {
        let (digits, count) = mended_number(s, i)->0;
        if count <= 0 {
            digits
        } else {
            digits + repeats_out(s, i + count)
        }
    } else {
        let next = after_kept(s, i);
        if next <= i {
            seq![s[i]]
        } else {
            seq![s[i]] + repeats_out(s, next)
        }
    }
}

/// The text without what joining repeats; a text of one character as it is.
pub open spec fn unrepeated(s: Seq<char>) -> Seq<char> {
    if s.len() < 2 {
        s
    } else {
        repeats_out(s, 0)
    }
}

/// Takes out what joining segments repeats.
pub fn clean_chars(s: &Vec<char>) -> (out: Vec<char>)
    ensures
        out@ == unrepeated(s@),
{
    if s.len() < 2 {
        let copy = chars::slice_of(s, 0, s.len());
        assert(copy@ =~= s@);
        return copy;
    }
    let mut out: Vec<char> = Vec::new();
    let mut i: usize = 0;
    assert(out@ + repeats_out(s@, 0) =~= repeats_out(s@, 0));
    while i < s.len()
        invariant
            i <= s.len(),
            out@ + repeats_out(s@, i as int) == repeats_out(s@, 0),
        decreases s.len() - i,
    {
        let c = s[i];
        let ghost before = out@;
        if is_junk_char_at_boundary(s, i) {
            i = i + 1;
            continue;
        }
        if chars::digit(c) {
            match clean_number_at_position(s, i) {
                Some((digits, count)) => {
                    chars::append_from(&mut out, &digits, 0);
                    assert(out@ + repeats_out(s@, i + count) =~= before + repeats_out(s@, i as int));
                    i = i + count;
                    continue;
                },
                None => {},
            }
        }
        out.push(c);
        let left: usize = s.len() - i;
        let mut end: usize = i + 1;
        while end < s.len() && s[end] == c
            invariant
                i < end <= s.len(),
                c == s[i as int],
                run_end(s@, i as int, i + 1) == run_end(s@, i as int, end as int),
            decreases s.len() - end,
        {
            end = end + 1;
        }
        proof {
            lemma_run_end(s@, i as int, i + 1);
        }
        let next: usize = if left > 2 && c == s[i + 2] && !chars::punctuation(c) && !c.is_whitespace()
            && chars::punctuation(s[i + 1]) {
            i + 3
        } else if end - i > 2 && !chars::digit(c) {
            end
        } else {
            i + 1
        };
        assert(next == after_kept(s@, i as int));
        assert(out@ + repeats_out(s@, next as int) =~= before + repeats_out(s@, i as int));
        i = next;
    }
    assert(out@ =~= repeats_out(s@, 0));
    out
}

/// Takes out of a text what joining segments repeats.
pub fn clean_repeated_chars(text: &str) -> (out: String)
    ensures
        out@ == unrepeated(text@),
{
    let out = clean_chars(&chars::chars_of(text));
    chars::text_of(&out)
}

proof fn lemma_doubled_length(s: Seq<char>, i: int, d: int)
    ensures
        doubled_length(s, i, d) > 0 ==> doubled_length(s, i, d) >= 2 && is_doubled(s, i, doubled_length(s, i, d)),
    decreases d,
{
    if d >= 2 && !is_doubled(s, i, d) {
        lemma_doubled_length(s, i, d - 1);
    }
}

/// After the first character more may be left out before the text goes on.
proof fn lemma_kept_left(s: Seq<char>, i: int, next: int, rest: Seq<char>)
    requires
        0 <= i < next <= s.len(),
        chars::left_of(rest, s.skip(next)),
    ensures
        chars::left_of(seq![s[i]] + rest, s.skip(i)),
{
    let only = seq![s[i]];
    chars::lemma_left_of_self(only);
    chars::lemma_left_of_behind(rest, s.subrange(i + 1, next), s.skip(next));
    chars::lemma_left_of_join(only, only, rest, s.subrange(i + 1, next) + s.skip(next));
    assert(only + (s.subrange(i + 1, next) + s.skip(next)) =~= s.skip(i));
}

proof fn lemma_undoubled_left(s: Seq<char>, i: int)
    requires
        0 <= i <= s.len(),
    ensures
        chars::left_of(undoubled(s, i), s.skip(i)),
    decreases (if i < s.len() { s.len() - i } else { 0 }),
{
    if i < s.len() {
        let d = doubled_length(s, i, 5);
        lemma_doubled_length(s, i, 5);
        if d > 0 {
            let first = s.subrange(i, i + d);
            let second = s.subrange(i + d, i + 2 * d);
            let rest = undoubled(s, i + 2 * d);
            lemma_undoubled_left(s, i + 2 * d);
            chars::lemma_left_of_behind(rest, second, s.skip(i + 2 * d));
            chars::lemma_left_of_self(first);
            chars::lemma_left_of_join(first, first, rest, second + s.skip(i + 2 * d));
            assert(first + (second + s.skip(i + 2 * d)) =~= s.skip(i));
        } else if is_echo(s, i) {
            lemma_undoubled_left(s, i + 3);
            lemma_kept_left(s, i, i + 3, undoubled(s, i + 3));
        } else {
            lemma_undoubled_left(s, i + 1);
            lemma_kept_left(s, i, i + 1, undoubled(s, i + 1));
        }
    }
}

proof fn lemma_echoes_out_left(s: Seq<char>, i: int)
    requires
        0 <= i <= s.len(),
    ensures
        chars::left_of(echoes_out(s, i), s.skip(i)),
    decreases s.len() - i,
{
    if i < s.len() {
        if is_pair_doubled(s, i) {
            let rest = echoes_out(s, i + 4);
            lemma_echoes_out_left(s, i + 4);
            lemma_kept_left(s, i + 1, i + 4, rest);
            lemma_kept_left(s, i, i + 1, seq![s[i + 1]] + rest);
            assert(seq![s[i]] + (seq![s[i + 1]] + rest) =~= echoes_out(s, i));
        } else {
            let next = if is_noisy_echo(s, i) {
                i + 3
            } else {
                i + 1
            };
            lemma_echoes_out_left(s, next);
            lemma_kept_left(s, i, next, echoes_out(s, next));
        }
    }
}

proof fn lemma_digits_from(s: Seq<char>, i: int)
    requires
        0 <= i <= s.len(),
    ensures
        i + overlap::digits_from(s, i) <= s.len(),
    decreases s.len() - i,
{
    if i < s.len() && chars::is_digit(s[i]) {
        lemma_digits_from(s, i + 1);
    }
}

proof fn lemma_closing_zeros(s: Seq<char>, start: int, end: int)
    requires
        0 <= start <= end <= s.len(),
    ensures
        closing_zeros(s, start, end) <= end - start,
        s.subrange(end - closing_zeros(s, start, end), end) == zeros(closing_zeros(s, start, end)),
    decreases end - start,
{
    if start < end && s[end - 1] == '0' {
        lemma_closing_zeros(s, start, end - 1);
        let before = s.subrange(end - closing_zeros(s, start, end), end - 1);
        assert(s.subrange(end - closing_zeros(s, start, end), end) =~= before.push('0'));
        assert(zeros(closing_zeros(s, start, end)) =~= zeros(closing_zeros(s, start, end - 1)).push('0'));
    } else {
        assert(s.subrange(end as int, end) =~= zeros(0));
    }
}

proof fn lemma_year_left(s: Seq<char>, start: int, n: int, y: int)
    requires
        0 <= start,
        0 <= y,
        start + n <= s.len(),
    ensures
        year_from(s, start, n, y) matches Some((digits, count)) ==> 0 < count <= n && chars::left_of(
            digits,
            s.subrange(start, start + count),
        ),
    decreases n - y,
{
    if y <= n - 4 {
        let year = s.subrange(start + y, start + y + 4);
        let before = s.subrange(start, start + y);
        chars::lemma_left_of_self(year);
        chars::lemma_left_of_behind(year, before, year);
        if begun_before(s, start, y) {
            assert(before + year =~= s.subrange(start, start + y + 4));
        } else if repeated_after(s, start, n, y) {
            let after = s.subrange(start + y + 4, start + n);
            chars::lemma_left_of_ahead(year, before + year, after);
            assert(before + year + after =~= s.subrange(start, start + n));
        } else {
            lemma_year_left(s, start, n, y + 1);
        }
    }
}

proof fn lemma_mended_left(s: Seq<char>, start: int)
    requires
        0 <= start <= s.len(),
    ensures
        mended_number(s, start) matches Some((digits, count)) ==> 0 < count && start + count <= s.len()
            && chars::left_of(digits, s.subrange(start, start + count)),
{
    let n = overlap::digits_from(s, start) as int;
    lemma_digits_from(s, start);
    lemma_year_left(s, start, n, 0);
    lemma_closing_zeros(s, start, start + n);
    let closing = closing_zeros(s, start, start + n);
    if !(n >= 6 && year_from(s, start, n, 0) is Some) && n >= 5 && closing >= 3 {
        let base = s.subrange(start, start + n - closing);
        let kept = zeros(((closing + 1) / 2) as nat);
        let dropped = zeros((closing - (closing + 1) / 2) as nat);
        chars::lemma_left_of_self(base);
        chars::lemma_left_of_self(kept);
        chars::lemma_left_of_ahead(kept, kept, dropped);
        assert(kept + dropped =~= zeros(closing));
        chars::lemma_left_of_join(base, base, kept, zeros(closing));
        assert(base + zeros(closing) =~= s.subrange(start, start + n));
    } else if n == 6 && is_read_again(s, start) {
        let first = s.subrange(start, start + 3);
        let last = seq![s[start + 5]];
        chars::lemma_left_of_self(first);
        chars::lemma_left_of_self(last);
        chars::lemma_left_of_behind(last, s.subrange(start + 3, start + 5), last);
        chars::lemma_left_of_join(first, first, last, s.subrange(start + 3, start + 5) + last);
        assert(first + last =~= read_again(s, start));
        assert(first + (s.subrange(start + 3, start + 5) + last) =~= s.subrange(start, start + 6));
    }
}

proof fn lemma_repeats_out_left(s: Seq<char>, i: int)
    requires
        0 <= i <= s.len(),
    ensures
        chars::left_of(repeats_out(s, i), s.skip(i)),
    decreases (if i < s.len() { s.len() - i } else { 0 }),
{
    if i < s.len() {
        if is_lone_artifact(s, i) {
            lemma_repeats_out_left(s, i + 1);
            chars::lemma_left_of_behind(repeats_out(s, i + 1), seq![s[i]], s.skip(i + 1));
            assert(seq![s[i]] + s.skip(i + 1) =~= s.skip(i));
        } else if chars::is_digit(s[i]) && mended_number(s, i) is Some {
            let (digits, count) = mended_number(s, i)->0;
            lemma_mended_left(s, i);
            lemma_repeats_out_left(s, i + count);
            chars::lemma_left_of_join(
                digits,
                s.subrange(i, i + count),
                repeats_out(s, i + count),
                s.skip(i + count),
            );
            assert(s.subrange(i, i + count) + s.skip(i + count) =~= s.skip(i));
        } else {
            lemma_run_end(s, i, i + 1);
            let next = after_kept(s, i);
            lemma_repeats_out_left(s, next);
            lemma_kept_left(s, i, next, repeats_out(s, next));
        }
    }
}

/// Repairing a joined text only leaves characters out.
pub proof fn law_repairing_only_removes(s: Seq<char>)
    ensures
        chars::left_of(undoubled(s, 0), s),
        chars::left_of(unechoed(s), s),
        chars::left_of(unrepeated(s), s),
{
    assert(s.skip(0) =~= s);
    chars::lemma_left_of_self(s);
    lemma_undoubled_left(s, 0);
    lemma_echoes_out_left(s, 0);
    lemma_repeats_out_left(s, 0);
}

/// No character comes again within the next five.
pub open spec fn is_varied(s: Seq<char>) -> bool {
    forall|i: int, j: int| 0 <= i < j < s.len() && j - i <= 5 ==> #[trigger] s[i] != #[trigger] s[j]
}

proof fn lemma_varied_is_not_doubled(s: Seq<char>, i: int, d: int)
    requires
        is_varied(s),
        0 <= i,
        d <= 5,
    ensures
        doubled_length(s, i, d) == 0,
    decreases d,
{
    if d >= 2 {
        lemma_varied_is_not_doubled(s, i, d - 1);
        if is_doubled(s, i, d) {
            assert(s[i] == s[i + d]);
        }
    }
}

proof fn lemma_varied_stays(s: Seq<char>, i: int)
    requires
        is_varied(s),
        0 <= i <= s.len(),
    ensures
        undoubled(s, i) == s.skip(i),
        echoes_out(s, i) == s.skip(i),
        (forall|k: int|
            0 <= k < s.len() ==> !('0' <= #[trigger] s[k] <= '9') && s[k] != 'e' && s[k] != 'i' && s[k] != 'l' && s[k]
                != 'I' && s[k] != 'o' && s[k] != 'O' && s[k] != '(' && s[k] != ')' && s[k] != '[' && s[k] != ']')
            ==> repeats_out(s, i) == s.skip(i),
    decreases s.len() - i,
{
    if i < s.len() {
        lemma_varied_is_not_doubled(s, i, 5);
        lemma_varied_stays(s, i + 1);
        assert(seq![s[i]] + s.skip(i + 1) =~= s.skip(i));
        if i + 2 < s.len() {
            assert(s[i] != s[i + 2]);
        }
        if i + 1 < s.len() {
            assert(s[i] != s[i + 1]);
        }
        assert(run_end(s, i, i + 1) == i + 1);
        assert(after_kept(s, i) == i + 1);
    } else {
        assert(s.skip(i) =~= Seq::empty());
    }
}

/// A text in which no character comes again within the next five is left as it is;
/// by the cleaning of repeats too, if it holds no digit and none of the letters and
/// brackets that edges are read as.
pub proof fn law_varied_text_stays(s: Seq<char>)
    requires
        is_varied(s),
    ensures
        undoubled(s, 0) == s,
        unechoed(s) == s,
        (forall|k: int|
            0 <= k < s.len() ==> !('0' <= #[trigger] s[k] <= '9') && s[k] != 'e' && s[k] != 'i' && s[k] != 'l' && s[k]
                != 'I' && s[k] != 'o' && s[k] != 'O' && s[k] != '(' && s[k] != ')' && s[k] != '[' && s[k] != ']')
            ==> unrepeated(s) == s,
{
    lemma_varied_stays(s, 0);
    assert(s.skip(0) =~= s);
}

proof fn lemma_longest_double(s: Seq<char>, d: int, most: int)
    requires
        2 <= d <= most,
        s.len() == 2 * d,
        is_doubled(s, 0, d),
    ensures
        doubled_length(s, 0, most) == d,
    decreases most,
{
    if most > d {
        lemma_longest_double(s, d, most - 1);
    }
}

/// Two to five characters that come twice are left once.
pub proof fn law_doubled_text_is_made_single(part: Seq<char>)
    requires
        2 <= part.len() <= 5,
    ensures
        undoubled(part + part, 0) == part,
{
    let s = part + part;
    let d = part.len() as int;
    assert(is_doubled(s, 0, d));
    lemma_longest_double(s, d, 5);
    assert(s.subrange(0, d) =~= part);
    assert(undoubled(s, 2 * d) =~= Seq::empty());
    assert(part + Seq::<char>::empty() =~= part);
}

/// A pair that comes twice is left once, and of a character that comes again after
/// one that is often misread the first is left; whatever varied text follows.
pub proof fn law_echoes_are_taken_out(a: char, b: char, noise: char, rest: Seq<char>)
    requires
        is_varied(rest),
        noise == ':' || noise == '1' || noise == '芮' || noise == 'í' || noise == 'ì' || noise == '兹' || noise == '戎'
            || noise == '讨' || noise == '˙',
        !('!' <= a <= '/' || ':' <= a <= '@' || '[' <= a <= '`' || '{' <= a <= '~'),
        rest.len() == 0 || rest[0] != noise,
    ensures
        unechoed(seq![a, b, a, b] + rest) == seq![a, b] + rest,
        unechoed(seq![a, noise, a] + rest) == seq![a] + rest,
{
    let s = seq![a, b, a, b] + rest;
    assert(s.skip(4) =~= rest);
    assert(rest.skip(0) =~= rest);
    lemma_echoes_shift(s, rest, 4, 0);
    assert(is_pair_doubled(s, 0));
    assert(echoes_out(s, 4) == echoes_out(rest, 0));
    lemma_varied_stays(rest, 0);
    let t = seq![a, noise, a] + rest;
    assert(t.skip(3) =~= rest);
    lemma_echoes_shift(t, rest, 3, 0);
    if t.len() > 3 {
        assert(t[3] == rest[0]);
    }
    assert(!is_pair_doubled(t, 0));
    assert(is_noisy_echo(t, 0));
    assert(echoes_out(t, 3) == echoes_out(rest, 0));
}

proof fn lemma_echoes_shift(s: Seq<char>, rest: Seq<char>, n: int, i: int)
    requires
        0 <= n <= s.len(),
        rest == s.skip(n),
        0 <= i <= rest.len(),
    ensures
        echoes_out(s, n + i) == echoes_out(rest, i),
    decreases rest.len() - i,
{
    if i < rest.len() {
        assert(forall|k: int| 0 <= k < rest.len() ==> #[trigger] rest[k] == s[n + k]);
        assert(is_pair_doubled(s, n + i) == is_pair_doubled(rest, i));
        assert(is_noisy_echo(s, n + i) == is_noisy_echo(rest, i));
        if is_pair_doubled(rest, i) {
            lemma_echoes_shift(s, rest, n, i + 4);
        } else if is_noisy_echo(rest, i) {
            lemma_echoes_shift(s, rest, n, i + 3);
        } else {
            lemma_echoes_shift(s, rest, n, i + 1);
        }
    }
}

proof fn lemma_all_digits(s: Seq<char>, i: int)
    requires
        0 <= i <= s.len(),
        forall|k: int| 0 <= k < s.len() ==> '0' <= #[trigger] s[k] <= '9',
    ensures
        overlap::digits_from(s, i) == s.len() - i,
    decreases s.len() - i,
{
    if i < s.len() {
        assert('0' <= s[i] <= '9');
        lemma_all_digits(s, i + 1);
    }
}

/// A year from 1900 to 2100 of which the last two, three or all four digits come
/// again is mended to the year; the year alone is left as it is.
pub proof fn law_years_are_mended(year: Seq<char>, k: int)
    requires
        year.len() == 4,
        forall|i: int| 0 <= i < 4 ==> '0' <= #[trigger] year[i] <= '9',
        1900 <= 1000 * (year[0] as int - '0' as int) + 100 * (year[1] as int - '0' as int) + 10 * (year[2] as int
            - '0' as int) + (year[3] as int - '0' as int) <= 2100,
        2 <= k <= 4,
    ensures
        mended_number(year + year.skip(4 - k), 0) == Some((year, 4 + k)),
        mended_number(year, 0) is None,
{
    let s = year + year.skip(4 - k);
    assert forall|i: int| 0 <= i < s.len() implies '0' <= #[trigger] s[i] <= '9' by {
        if i < 4 {
            assert('0' <= year[i] <= '9');
        } else {
            assert('0' <= year[i - k] <= '9');
        }
    }
    lemma_all_digits(s, 0);
    lemma_all_digits(year, 0);
    let n = 4 + k;
    assert(repeated_after(s, 0, n, 0)) by {
        assert(s[0] == year[0] && s[1] == year[1] && s[2] == year[2] && s[3] == year[3]);
        assert forall|j: int| 0 <= j < k implies #[trigger] s[0 + 0 + 4 + j] == s[0 + 0 + 4 - k + j] by {}
    }
    assert(!begun_before(s, 0, 0));
    assert(s.subrange(0, 4) =~= year);
    assert(year_from(s, 0, n, 0) == Some((s.subrange(0, 4), n)));
}

} // verus!
