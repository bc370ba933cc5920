//! Cleaning recognized lines, and telling junk from text.

use vstd::prelude::*;

use crate::chars;
use crate::measure;
use crate::measure::Measure;
use crate::ordering::Ordinal;

verus! {

/// A character that is content, not an edge artifact.
pub open spec fn is_content(c: char) -> bool {
    chars::alphanumeric(c) || chars::is_ideograph(c) || chars::is_rare_ideograph(c) || chars::is_kana(c)
        || chars::is_hangul(c) || c == '\u{3000}'
}

/// A character that a line may begin with.
pub open spec fn is_strong_content(c: char) -> bool {
    chars::is_digit(c) || chars::is_letter(c) || chars::is_ideograph(c) || chars::is_rare_ideograph(c)
        || chars::is_hangul(c)
}

/// Tells whether a character is content, not an edge artifact.
pub fn is_content_char(c: char) -> (yes: bool)
    ensures
        yes == is_content(c),
{
    c.is_alphanumeric() || chars::ideograph(c) || chars::rare_ideograph(c) || chars::kana(c) || chars::hangul(c) || c
        == '\u{3000}'
}

/// Tells whether a line may begin with a character.
pub fn is_strong_content_char(c: char) -> (yes: bool)
    ensures
        yes == is_strong_content(c),
{
    chars::digit(c) || chars::letter(c) || chars::ideograph(c) || chars::rare_ideograph(c) || chars::hangul(c)
}

/// The bracket that closes `c`.
pub open spec fn closer(c: char) -> Option<char> {
    match c {
        '(' => Some(')'),
        '（' => Some('）'),
        '「' => Some('」'),
        '【' => Some('】'),
        '『' => Some('』'),
        '[' => Some(']'),
        '{' => Some('}'),
        _ => None,
    }
}

/// How far after an opening bracket its closer is looked for.
pub const BRACKET_REACH: usize = 5;

/// The character at `pos` opens a bracket that is closed soon after.
pub open spec fn is_bracketed(s: Seq<char>, pos: int) -> bool {
    closer(s[pos]) matches Some(end) && exists|q: int|
        pos < q <= pos + BRACKET_REACH && q < s.len() && #[trigger] s[q] == end
}

/// Tells whether the character at `pos` opens a bracket that is closed within
/// the next characters.
pub fn has_matching_bracket(s: &Vec<char>, pos: usize) -> (yes: bool)
    requires
        pos < s.len(),
    ensures
        yes == is_bracketed(s@, pos as int),
{
    let end: char = match s[pos] {
        '(' => ')',
        '（' => '）',
        '「' => '」',
        '【' => '】',
        '『' => '』',
        '[' => ']',
        '{' => '}',
        _ => {
            return false;
        },
    };
    let mut q: usize = pos + 1;
    while q < s.len() && q - pos <= BRACKET_REACH
        invariant
            pos < q <= s.len(),
            closer(s[pos as int]) == Some(end),
            forall|r: int| pos < r < q ==> #[trigger] s[r] != end,
        decreases s.len() - q,
    {
        if s[q] == end {
            return true;
        }
        q = q + 1;
    }
    false
}

/// The first position from `i` on with which a line may begin.
pub open spec fn lead(s: Seq<char>, i: int) -> int
    decreases s.len() - i,
{
    if i >= s.len() || is_strong_content(s[i]) || is_bracketed(s, i) {
        i
    } else {
        lead(s, i + 1)
    }
}

/// A stroke between two ideographs that is no text.
pub open spec fn is_stroke(s: Seq<char>, i: int) -> bool {
    &&& 0 < i < s.len() - 1
    &&& chars::is_ideograph(s[i - 1])
    &&& chars::is_ideograph(s[i + 1])
    &&& s[i] == '|' || s[i] == '!' || s[i] == '$'
}

/// A comma or stop that comes twice.
pub open spec fn is_doubled_stop(s: Seq<char>, i: int) -> bool {
    &&& i + 1 < s.len()
    &&& s[i] == s[i + 1]
    &&& s[i] == ',' || s[i] == '.' || s[i] == '。' || s[i] == '，'
}

/// The text from `i` on without strokes and with doubled stops made single.
pub open spec fn smoothed(s: Seq<char>, i: int) -> Seq<char>
    decreases s.len() - i,
{
    if i >= s.len() {
        Seq::empty()
    } else if is_stroke(s, i) {
        smoothed(s, i + 1)
    } else if is_doubled_stop(s, i) {
        seq![s[i]] + smoothed(s, i + 2)
    } else {
        seq![s[i]] + smoothed(s, i + 1)
    }
}

/// A character with which a line may end.
pub open spec fn may_end(c: char) -> bool {
    is_content(c) || c == '。' || c == '.' || c == ')' || c == '）' || c == '」' || c == '】' || c == '%'
}

/// The text without trailing junk.
pub open spec fn tail_cut(s: Seq<char>) -> Seq<char>
    decreases s.len(),
{
    if s.len() == 0 || may_end(s.last()) {
        s
    } else {
        tail_cut(s.drop_last())
    }
}

/// The cleaned text of a recognized line.
pub open spec fn cleaned(s: Seq<char>) -> Seq<char> {
    tail_cut(smoothed(s, lead(s, 0)))
}

fn ends_line(c: char) -> (yes: bool)
    ensures
        yes == may_end(c),
{
    is_content_char(c) || c == '。' || c == '.' || c == ')' || c == '）' || c == '」' || c == '】' || c == '%'
}

/// Cleans the characters of a recognized line.
pub fn clean_line(s: &Vec<char>) -> (out: Vec<char>)
    ensures
        out@ == cleaned(s@),
{
    let mut i: usize = 0;
    while i < s.len() && !is_strong_content_char(s[i]) && !has_matching_bracket(s, i)
        invariant
            i <= s.len(),
            lead(s@, 0) == lead(s@, i as int),
        decreases s.len() - i,
    {
        i = i + 1;
    }
    let ghost start = i as int;
    let mut out: Vec<char> = Vec::new();
    assert(out@ + smoothed(s@, start) =~= smoothed(s@, start));
    while i < s.len()
        invariant
            start <= i <= s.len(),
            out@ + smoothed(s@, i as int) == smoothed(s@, start),
        decreases s.len() - i,
    {
        let c = s[i];
        let ghost before = out@;
        if i > 0 && i < s.len() - 1 && chars::ideograph(s[i - 1]) && chars::ideograph(s[i + 1]) && (c == '|' || c == '!'
            || c == '$') {
            i = i + 1;
            continue;
        }
        if i < s.len() - 1 && c == s[i + 1] && (c == ',' || c == '.' || c == '。' || c == '，') {
            out.push(c);
            assert(out@ + smoothed(s@, i + 2) =~= before + smoothed(s@, i as int));
            i = i + 2;
            continue;
        }
        out.push(c);
        assert(out@ + smoothed(s@, i + 1) =~= before + smoothed(s@, i as int));
        i = i + 1;
    }
    assert(out@ =~= smoothed(s@, start));
    while out.len() > 0 && !ends_line(out[out.len() - 1])
        invariant
            tail_cut(out@) == cleaned(s@),
        decreases out.len(),
    {
        assert(out@.last() == out@[out.len() - 1]);
        out.pop();
    }
    out
}

/// Cleans the text of a recognized line.
pub fn post_process_text(text: &str) -> (out: String)
    ensures
        out@ == cleaned(text@),
{
    let out = clean_line(&chars::chars_of(text));
    chars::text_of(&out)
}

/// Characters of some meaning: letters, digits, CJK, kana and Korean.
pub open spec fn is_meaningful(c: char) -> bool {
    chars::alphanumeric(c) || chars::is_ideograph(c) || chars::is_rare_ideograph(c) || chars::is_kana(c)
        || chars::is_hangul(c)
}

/// How many characters are meaningful.
pub open spec fn meaning(s: Seq<char>) -> nat
    decreases s.len(),
{
    if s.len() == 0 {
        0
    } else {
        meaning(s.drop_last()) + (if is_meaningful(s.last()) { 1nat } else { 0 })
    }
}

/// Some character of the text satisfies `p`.
pub open spec fn some_char(s: Seq<char>, p: spec_fn(char) -> bool) -> bool {
    exists|i: int| 0 <= i < s.len() && p(#[trigger] s[i])
}

/// All characters from `a` up to `b` are the same.
pub open spec fn is_run(s: Seq<char>, a: int, b: int) -> bool {
    &&& 0 <= a < b <= s.len()
    &&& forall|i: int| a <= i < b ==> #[trigger] s[i] == s[a]
}

/// Short text that mixes kana with ideographs, letters or digits.
pub open spec fn is_garbled(s: Seq<char>) -> bool {
    &&& s.len() <= 8
    &&& some_char(s, |c: char| chars::is_kana(c))
    &&& {
        ||| some_char(s, |c: char| chars::is_ideograph(c) || chars::is_rare_ideograph(c))
        ||| some_char(s, |c: char| chars::is_letter(c))
        ||| some_char(s, |c: char| chars::is_digit(c))
    }
}

/// More than two thirds of the text are one character repeated.
pub open spec fn is_monotone(s: Seq<char>) -> bool {
    s.len() >= 3 && exists|a: int, b: int| #[trigger] is_run(s, a, b) && (b - a) * 3 > s.len() * 2
}

/// A line is junk if it is empty, mostly without meaning, garbled or monotone.
pub open spec fn is_junk(s: Seq<char>) -> bool {
    s.len() == 0 || meaning(s) * 2 < s.len() || is_garbled(s) || is_monotone(s)
}

/// The length of the longest run of one character.
fn longest_run(s: &Vec<char>) -> (longest: usize)
    requires
        s.len() > 0,
    ensures
        longest <= s.len(),
        exists|a: int, b: int| #[trigger] is_run(s@, a, b) && b - a == longest,
        forall|a: int, b: int| #[trigger] is_run(s@, a, b) ==> b - a <= longest,
{
    let mut longest: usize = 1;
    let mut current: usize = 1;
    let mut i: usize = 1;
    let ghost mut at: int = 0;
    assert(is_run(s@, 0, 1));
    assert forall|a: int, b: int| #[trigger] is_run(s@, a, b) && b <= 1 implies b - a <= 1 by {}
    while i < s.len()
        invariant
            1 <= i <= s.len(),
            1 <= current <= i,
            current <= longest <= i,
            is_run(s@, i - current, i as int),
            is_run(s@, at, at + longest),
            current < i ==> s[i - current - 1] != s[i - current as int],
            forall|a: int, b: int| #[trigger] is_run(s@, a, b) && b <= i ==> b - a <= longest,
        decreases s.len() - i,
    {
        let ghost was = longest;
        if s[i] == s[i - 1] {
            proof {
                assert(s[i - 1] == s[i - current]);
                assert(is_run(s@, i - current, i + 1));
            }
            current = current + 1;
            if current > longest {
                longest = current;
                proof {
                    at = i + 1 - current;
                }
            }
        } else {
            current = 1;
            assert(is_run(s@, i as int, i + 1));
        }
        proof {
            assert forall|a: int, b: int| #[trigger] is_run(s@, a, b) && b <= i + 1 implies b - a <= longest by {
                if b == i + 1 {
                    if a < i {
                        assert(s[i as int] == s[a] && s[i - 1] == s[a]);
                        if a < i + 1 - current {
                            assert(s[i - current as int] == s[a]);
                            assert(s[i + 1 - current as int] == s[a]);
                        }
                    }
                } else {
                    assert(b - a <= was);
                }
            }
        }
        i = i + 1;
    }
    longest
}

/// Tells whether a line is junk.
pub fn is_junk_chars(s: &Vec<char>) -> (junk: bool)
    ensures
        junk == is_junk(s@),
{
    let total: usize = s.len();
    if total == 0 {
        return true;
    }
    let mut count: usize = 0;
    let mut has_kana: bool = false;
    let mut has_cjk: bool = false;
    let mut has_latin: bool = false;
    let mut has_digit: bool = false;
    let mut i: usize = 0;
    while i < total
        invariant
            i <= total,
            total == s.len(),
            count <= i,
            count == meaning(s@.take(i as int)),
            has_kana == exists|k: int| 0 <= k < i && chars::is_kana(#[trigger] s[k]),
            has_cjk == exists|k: int| 0 <= k < i && (chars::is_ideograph(#[trigger] s[k]) || chars::is_rare_ideograph(s[k])),
            has_latin == exists|k: int| 0 <= k < i && chars::is_letter(#[trigger] s[k]),
            has_digit == exists|k: int| 0 <= k < i && chars::is_digit(#[trigger] s[k]),
        decreases total - i,
    {
        let c = s[i];
        assert(s@.take(i + 1).drop_last() =~= s@.take(i as int));
        if c.is_alphanumeric() || chars::ideograph(c) || chars::rare_ideograph(c) || chars::kana(c) || chars::hangul(c) {
            count = count + 1;
        }
        has_kana = has_kana || chars::kana(c);
        has_cjk = has_cjk || chars::ideograph(c) || chars::rare_ideograph(c);
        has_latin = has_latin || chars::letter(c);
        has_digit = has_digit || chars::digit(c);
        i = i + 1;
    }
    assert(s@.take(total as int) =~= s@);
    proof {
        let kana = |c: char| chars::is_kana(c);
        let cjk = |c: char| chars::is_ideograph(c) || chars::is_rare_ideograph(c);
        let latin = |c: char| chars::is_letter(c);
        let digit = |c: char| chars::is_digit(c);
        assert(has_kana == some_char(s@, kana)) by {
            if has_kana {
                let k = choose|k: int| 0 <= k < total && chars::is_kana(#[trigger] s[k]);
                assert(kana(s@[k]));
            }
        }
        assert(has_cjk == some_char(s@, cjk)) by {
            if has_cjk {
                let k = choose|k: int|
                    0 <= k < total && (chars::is_ideograph(#[trigger] s[k]) || chars::is_rare_ideograph(s[k]));
                assert(cjk(s@[k]));
            }
        }
        assert(has_latin == some_char(s@, latin)) by {
            if has_latin {
                let k = choose|k: int| 0 <= k < total && chars::is_letter(#[trigger] s[k]);
                assert(latin(s@[k]));
            }
        }
        assert(has_digit == some_char(s@, digit)) by {
            if has_digit {
                let k = choose|k: int| 0 <= k < total && chars::is_digit(#[trigger] s[k]);
                assert(digit(s@[k]));
            }
        }
    }
    if count < total - count {
        return true;
    }
    if total <= 8 && has_kana && (has_cjk || has_latin || has_digit) {
        return true;
    }
    if total >= 3 {
        let longest = longest_run(s);
        if longest as u128 * 3 > total as u128 * 2 {
            return true;
        }
    }
    false
}

/// Tells whether a line of text is junk.
pub fn is_junk_line(text: &str) -> (junk: bool)
    ensures
        junk == is_junk(text@),
{
    is_junk_chars(&chars::chars_of(text))
}

/// All characters are ASCII.
pub open spec fn all_ascii(s: Seq<char>) -> bool {
    forall|i: int| 0 <= i < s.len() ==> #[trigger] s[i] <= '\u{7F}'
}

fn only_ascii(s: &Vec<char>) -> (yes: bool)
    ensures
        yes == all_ascii(s@),
{
    let mut i: usize = 0;
    while i < s.len()
        invariant
            i <= s.len(),
            forall|k: int| 0 <= k < i ==> #[trigger] s[k] <= '\u{7F}',
        decreases s.len() - i,
    {
        if s[i] > '\u{7F}' {
            return false;
        }
        i = i + 1;
    }
    true
}

fn has_space(s: &Vec<char>) -> (yes: bool)
    ensures
        yes == s@.contains(' '),
{
    let mut i: usize = 0;
    while i < s.len()
        invariant
            i <= s.len(),
            forall|k: int| 0 <= k < i ==> #[trigger] s[k] != ' ',
        decreases s.len() - i,
    {
        if s[i] == ' ' {
            return true;
        }
        i = i + 1;
    }
    false
}

/// Of the readings of a line by the CJK and by the universal model, the
/// universal one is preferred if
/// - both are short, it is ASCII and the other is not, or
/// - the CJK model read longer ASCII text without a space, the universal model
///   read spaces, and its confidence is above one half, or
/// - it is not empty and its confidence is higher.
pub open spec fn universal_preferred(cjk: Seq<char>, und: Seq<char>, conf_cjk: Measure, conf_und: Measure) -> bool {
    ||| {
        &&& cjk.len() <= 3
        &&& 0 < und.len() <= 3
        &&& all_ascii(und)
        &&& !all_ascii(cjk)
    }
    ||| {
        &&& all_ascii(cjk)
        &&& cjk.len() > 5
        &&& !cjk.contains(' ')
        &&& und.contains(' ')
        &&& measure::exceeds(conf_und, Some(measure::HALF))
    }
    ||| {
        &&& measure::exceeds(conf_und, conf_cjk)
        &&& und.len() > 0
    }
}

/// Tells whether the universal model's reading of a line is preferred.
pub fn prefers_universal(cjk: &str, und: &str, conf_cjk: Measure, conf_und: Measure) -> (yes: bool)
    ensures
        yes == universal_preferred(cjk@, und@, conf_cjk, conf_und),
{
    let c = chars::chars_of(cjk);
    let u = chars::chars_of(und);
    let cjk_ascii = only_ascii(&c);
    let und_ascii = only_ascii(&u);
    if c.len() <= 3 && u.len() <= 3 && u.len() > 0 && und_ascii && !cjk_ascii {
        return true;
    }
    if cjk_ascii && !has_space(&c) && c.len() > 5 && has_space(&u) && measure::is_above(
        conf_und,
        Some(measure::HALF),
    ) {
        return true;
    }
    measure::is_above(conf_und, conf_cjk) && u.len() > 0
}

/// A line of text is long enough: two characters, or one digit.
pub open spec fn is_long_enough(s: Seq<char>) -> bool {
    s.len() >= 2 || s.len() == 1 && chars::is_digit(s[0])
}

/// What is kept of a reading: the cleaned and trimmed text, unless it is too
/// short, below the least confidence, or junk.
pub open spec fn accepted(s: Seq<char>, conf: Measure, least: Measure) -> Option<Seq<char>> {
    let text = chars::trimmed(cleaned(s));
    if is_long_enough(text) && !measure::exceeds(least, conf) && !is_junk(text) {
        Some(text)
    } else {
        None
    }
}

/// Cleans a reading, and drops it if it is no line of text.
pub fn accept_reading(text: &str, conf: Measure, least: Measure) -> (line: Option<String>)
    ensures
        match line {
            Some(l) => accepted(text@, conf, least) == Some(l@),
            None => accepted(text@, conf, least) is None,
        },
{
    let inner = chars::trim(&clean_line(&chars::chars_of(text)));
    let short = inner.len() < 2 && !(inner.len() == 1 && chars::digit(inner[0]));
    if short || measure::is_above(least, conf) || is_junk_chars(&inner) {
        return None;
    }
    Some(chars::text_of(&inner))
}

proof fn lemma_smoothed_left(s: Seq<char>, i: int)
    requires
        0 <= i,
    ensures
        i <= s.len() ==> chars::left_of(smoothed(s, i), s.skip(i)),
    decreases s.len() - i,
{
    if i < s.len() {
        let only = seq![s[i]];
        chars::lemma_left_of_self(only);
        assert(s.skip(i) =~= only + s.skip(i + 1));
        if is_stroke(s, i) {
            lemma_smoothed_left(s, i + 1);
            chars::lemma_left_of_behind(smoothed(s, i + 1), only, s.skip(i + 1));
        } else if is_doubled_stop(s, i) {
            lemma_smoothed_left(s, i + 2);
            assert(s.skip(i + 1) =~= seq![s[i + 1]] + s.skip(i + 2));
            chars::lemma_left_of_behind(smoothed(s, i + 2), seq![s[i + 1]], s.skip(i + 2));
            chars::lemma_left_of_join(only, only, smoothed(s, i + 2), s.skip(i + 1));
        } else {
            lemma_smoothed_left(s, i + 1);
            chars::lemma_left_of_join(only, only, smoothed(s, i + 1), s.skip(i + 1));
        }
    }
}

proof fn lemma_tail_cut_left(part: Seq<char>, s: Seq<char>)
    requires
        chars::left_of(part, s),
    ensures
        chars::left_of(tail_cut(part), s),
        tail_cut(part).len() > 0 ==> may_end(tail_cut(part).last()) && tail_cut(part)[0] == part[0],
    decreases part.len(),
{
    if part.len() > 0 && !may_end(part.last()) {
        chars::lemma_left_of_shorter(part, s);
        lemma_tail_cut_left(part.drop_last(), s);
    }
}

proof fn lemma_lead_range(s: Seq<char>, i: int)
    requires
        0 <= i <= s.len(),
    ensures
        i <= lead(s, i) <= s.len(),
        lead(s, i) < s.len() ==> is_strong_content(s[lead(s, i)]) || is_bracketed(s, lead(s, i)),
    decreases s.len() - i,
{
    if i < s.len() && !is_strong_content(s[i]) && !is_bracketed(s, i) {
        lemma_lead_range(s, i + 1);
    }
}

/// Cleaning a line only leaves characters out. What is left begins with strong
/// content or an opening bracket, and ends with a character that may end a line.
pub proof fn law_cleaning_only_removes(s: Seq<char>)
    ensures
        chars::left_of(cleaned(s), s),
        cleaned(s).len() > 0 ==> is_strong_content(cleaned(s)[0]) || closer(cleaned(s)[0]) is Some,
        cleaned(s).len() > 0 ==> may_end(cleaned(s).last()),
{
    lemma_lead_range(s, 0);
    let start = lead(s, 0);
    lemma_smoothed_left(s, start);
    chars::lemma_left_of_behind(smoothed(s, start), s.take(start), s.skip(start));
    assert(s.take(start) + s.skip(start) =~= s);
    lemma_tail_cut_left(smoothed(s, start), s);
    if start < s.len() {
        assert(smoothed(s, start)[0] == s[start]);
    }
}

/// A reading that is kept is trimmed, long enough and no junk.
pub proof fn law_accepted_is_text(s: Seq<char>, conf: Measure, least: Measure)
    ensures
        accepted(s, conf, least) matches Some(text) ==> {
            &&& chars::trimmed(text) == text
            &&& is_long_enough(text)
            &&& !is_junk(text)
            &&& meaning(text) > 0
        },
{
    chars::law_trimming_is_idempotent(cleaned(s));
}

/// A text of one character repeated three times or more is junk.
pub proof fn law_repetition_is_junk(s: Seq<char>)
    requires
        s.len() >= 3,
        is_run(s, 0, s.len() as int),
    ensures
        is_junk(s),
{
}

/// A letter or digit of ASCII, or a common ideograph.
pub open spec fn is_plain(c: char) -> bool {
    'a' <= c <= 'z' || 'A' <= c <= 'Z' || '0' <= c <= '9' || '\u{4E00}' <= c <= '\u{9FFF}'
}

/// A dash, bar or like mark with which no line begins or ends.
pub open spec fn is_mark(c: char) -> bool {
    c == '|' || c == '-' || c == '_' || c == '~' || c == '=' || c == '*'
}

/// A text that needs no cleaning: it begins and ends with a plain character, and
/// holds none of `|`, `!` and `$`, nor a comma or stop twice running.
pub open spec fn is_clean(s: Seq<char>) -> bool {
    &&& s.len() > 0
    &&& is_plain(s[0])
    &&& is_plain(s[s.len() - 1])
    &&& forall|i: int| 0 <= i < s.len() ==> #[trigger] s[i] != '|' && s[i] != '!' && s[i] != '$'
    &&& forall|i: int|
        0 <= i < s.len() - 1 && (s[i] == ',' || s[i] == '.' || s[i] == '。' || s[i] == '，') ==> #[trigger] s[i] != s[i
            + 1]
}

proof fn lemma_marks_lead(s: Seq<char>, i: int, n: int)
    requires
        0 <= i <= n < s.len(),
        forall|j: int| i <= j < n ==> is_mark(#[trigger] s[j]),
        is_plain(s[n]),
    ensures
        lead(s, i) == n,
    decreases n - i,
{
    if i < n {
        assert(is_mark(s[i]));
        lemma_marks_lead(s, i + 1, n);
    }
}

spec fn stays(s: Seq<char>, i: int) -> bool {
    !is_stroke(s, i) && !is_doubled_stop(s, i)
}

proof fn lemma_smoothed_as_it_is(s: Seq<char>, i: int)
    requires
        0 <= i <= s.len(),
        forall|j: int| i <= j < s.len() ==> #[trigger] stays(s, j),
    ensures
        smoothed(s, i) == s.skip(i),
    decreases s.len() - i,
{
    if i < s.len() {
        assert(stays(s, i));
        lemma_smoothed_as_it_is(s, i + 1);
        assert(seq![s[i]] + s.skip(i + 1) =~= s.skip(i));
    } else {
        assert(s.skip(i) =~= Seq::empty());
    }
}

proof fn lemma_tail_of_marks(text: Seq<char>, tail: Seq<char>)
    requires
        text.len() > 0,
        may_end(text.last()),
        forall|j: int| 0 <= j < tail.len() ==> is_mark(#[trigger] tail[j]) && !may_end(tail[j]),
    ensures
        tail_cut(text + tail) == text,
    decreases tail.len(),
{
    if tail.len() == 0 {
        assert(text + tail =~= text);
    } else {
        let shorter = tail.drop_last();
        assert((text + tail).drop_last() =~= text + shorter);
        assert((text + tail).last() == tail[tail.len() - 1]);
        lemma_tail_of_marks(text, shorter);
    }
}

/// Cleaning takes the marks before and behind a clean text away, and nothing of
/// the text itself. It must be known what `char::is_alphanumeric` says of the marks
/// and of the text's last character.
pub proof fn law_edges_are_cleaned(front: Seq<char>, text: Seq<char>, tail: Seq<char>)
    requires
        is_clean(text),
        chars::alphanumeric(text[text.len() - 1]),
        forall|j: int| 0 <= j < front.len() ==> is_mark(#[trigger] front[j]),
        forall|j: int| 0 <= j < tail.len() ==> is_mark(#[trigger] tail[j]) && !chars::alphanumeric(tail[j]),
    ensures
        cleaned(front + text + tail) == text,
{
    let s = front + text + tail;
    let n = front.len() as int;
    let m = n + text.len();
    assert forall|j: int| 0 <= j < n implies is_mark(#[trigger] s[j]) by {
        assert(s[j] == front[j]);
    }
    assert forall|j: int| n <= j < m implies #[trigger] s[j] == text[j - n] by {}
    assert forall|j: int| m <= j < s.len() implies is_mark(#[trigger] s[j]) by {
        assert(s[j] == tail[j - m]);
    }
    assert(s[n] == text[0]);
    lemma_marks_lead(s, 0, n);
    assert forall|j: int| n <= j < s.len() implies #[trigger] stays(s, j) by {
        if j < m {
            assert(s[j] == text[j - n]);
            if j + 1 < m {
                assert(s[j + 1] == text[j + 1 - n]);
            } else if j + 1 < s.len() {
                assert(is_mark(s[j + 1]));
            }
        } else if j + 1 < s.len() {
            assert(is_mark(s[j]));
            assert(is_mark(s[j + 1]));
        } else {
            assert(is_mark(s[j]));
        }
    }
    lemma_smoothed_as_it_is(s, n);
    assert(s.skip(n) =~= text + tail);
    assert(text.last() == text[text.len() - 1]);
    lemma_tail_of_marks(text, tail);
}

/// A line of plain characters with single spaces between them.
pub open spec fn is_ordinary(s: Seq<char>) -> bool {
    &&& s.len() >= 2
    &&& is_plain(s[0])
    &&& is_plain(s[s.len() - 1])
    &&& forall|i: int| 0 <= i < s.len() ==> is_plain(#[trigger] s[i]) || s[i] == ' '
    &&& forall|i: int| 0 <= i < s.len() - 1 ==> #[trigger] s[i] != s[i + 1]
    &&& forall|i: int| 0 <= i < s.len() && is_plain(#[trigger] s[i]) ==> chars::alphanumeric(s[i])
}

proof fn lemma_ordinary_has_meaning(s: Seq<char>, k: int)
    requires
        is_ordinary(s),
        0 < k <= s.len(),
    ensures
        2 * meaning(s.take(k)) >= k,
        is_plain(s[k - 1]) ==> 2 * meaning(s.take(k)) >= k + 1,
    decreases k,
{
    let part = s.take(k);
    assert(part.last() == s[k - 1]);
    assert(part.drop_last() =~= s.take(k - 1));
    if k > 1 {
        lemma_ordinary_has_meaning(s, k - 1);
        if !is_plain(s[k - 1]) {
            assert(s[k - 1] == ' ');
            assert(s[k - 2] != s[k - 2 + 1]);
            assert(is_plain(s[k - 2]));
        }
    } else {
        assert(is_plain(s[0]));
    }
}

proof fn lemma_trimmed_as_it_is(s: Seq<char>)
    requires
        s.len() > 0,
        !chars::whitespace(s[0]),
        !chars::whitespace(s[s.len() - 1]),
    ensures
        chars::trimmed(s) == s,
{
    assert(s.first() == s[0]);
    assert(s.last() == s[s.len() - 1]);
}

/// An ordinary line is accepted as it is, if its confidence is not below the least;
/// below it, nothing is accepted.
pub proof fn law_ordinary_lines_are_accepted(s: Seq<char>, conf: Measure, least: Measure)
    requires
        is_ordinary(s),
    ensures
        conf is Some && least is Some && conf->0 < least->0 ==> accepted(s, conf, least) is None,
        !(conf is Some && least is Some && conf->0 < least->0) ==> accepted(s, conf, least) == Some(s),
{
    let none = Seq::<char>::empty();
    assert forall|i: int| 0 <= i < s.len() implies #[trigger] s[i] != '|' && s[i] != '!' && s[i] != '$' by {
        assert(is_plain(s[i]) || s[i] == ' ');
    }
    assert(is_plain(s[s.len() - 1]));
    law_edges_are_cleaned(none, s, none);
    assert(none + s + none =~= s);
    lemma_trimmed_as_it_is(s);
    lemma_ordinary_has_meaning(s, s.len() as int);
    assert(s.take(s.len() as int) =~= s);
    assert(!is_garbled(s)) by {
        let kana = |c: char| chars::is_kana(c);
        if some_char(s, kana) {
            let i = choose|i: int| 0 <= i < s.len() && kana(#[trigger] s[i]);
            assert(is_plain(s[i]) || s[i] == ' ');
        }
    }
    assert(!is_monotone(s)) by {
        if is_monotone(s) {
            let (a, b) = choose|a: int, b: int| #[trigger] is_run(s, a, b) && (b - a) * 3 > s.len() * 2;
            assert(b - a >= 2);
            assert(s[a] == s[a]);
            assert(s[a + 1] == s[a]);
            assert(s[a] != s[a + 1]);
        }
    }
}

/// Text without a single letter, digit, ideograph, kana or Korean character is
/// junk, and so is the empty text.
pub proof fn law_text_without_meaning_is_junk(s: Seq<char>)
    requires
        forall|i: int|
            0 <= i < s.len() ==> !chars::alphanumeric(#[trigger] s[i]) && !('\u{4E00}' <= s[i] <= '\u{9FFF}') && !(
            '\u{3400}' <= s[i] <= '\u{4DBF}') && !chars::is_kana(s[i]) && !chars::is_hangul(s[i]),
    ensures
        is_junk(s),
{
    lemma_no_meaning(s, s.len() as int);
    assert(s.take(s.len() as int) =~= s);
}

proof fn lemma_no_meaning(s: Seq<char>, k: int)
    requires
        0 <= k <= s.len(),
        forall|i: int|
            0 <= i < s.len() ==> !chars::alphanumeric(#[trigger] s[i]) && !('\u{4E00}' <= s[i] <= '\u{9FFF}') && !(
            '\u{3400}' <= s[i] <= '\u{4DBF}') && !chars::is_kana(s[i]) && !chars::is_hangul(s[i]),
    ensures
        meaning(s.take(k)) == 0,
    decreases k,
{
    if k > 0 {
        lemma_no_meaning(s, k - 1);
        assert(s.take(k).drop_last() =~= s.take(k - 1));
        assert(s.take(k).last() == s[k - 1]);
    }
}

/// When the universal model's reading is preferred. An empty one never is. A more
/// confident one is. Where both are short, ASCII is preferred to what is not. Long
/// ASCII without a space gives way to words, if these are more likely than not. Else
/// the CJK model's reading stays: where it is not ASCII and longer than three
/// characters, or has a space and no less confidence.
pub proof fn law_preference(cjk: Seq<char>, und: Seq<char>, conf_cjk: Ordinal, conf_und: Ordinal)
    ensures
        und.len() == 0 ==> !universal_preferred(cjk, und, Some(conf_cjk), Some(conf_und)),
        und.len() > 0 && conf_und > conf_cjk ==> universal_preferred(cjk, und, Some(conf_cjk), Some(conf_und)),
        cjk.len() <= 3 && 0 < und.len() <= 3 && (forall|i: int| 0 <= i < und.len() ==> #[trigger] und[i] <= '\u{7F}') && (
        exists|i: int| 0 <= i < cjk.len() && #[trigger] cjk[i] > '\u{7F}') ==> universal_preferred(
            cjk,
            und,
            Some(conf_cjk),
            Some(conf_und),
        ),
        cjk.len() > 5 && (forall|i: int| 0 <= i < cjk.len() ==> #[trigger] cjk[i] <= '\u{7F}' && cjk[i] != ' ') && (
        exists|i: int| 0 <= i < und.len() && #[trigger] und[i] == ' ') && conf_und > 0x3F00_0000 ==> universal_preferred(
            cjk,
            und,
            Some(conf_cjk),
            Some(conf_und),
        ),
        conf_und <= conf_cjk && cjk.len() > 3 && (exists|i: int| 0 <= i < cjk.len() && #[trigger] cjk[i] > '\u{7F}')
            ==> !universal_preferred(cjk, und, Some(conf_cjk), Some(conf_und)),
        conf_und <= conf_cjk && (forall|i: int| 0 <= i < cjk.len() ==> #[trigger] cjk[i] <= '\u{7F}') && (cjk.len() <= 5
            || conf_und <= 0x3F00_0000 || (exists|i: int| 0 <= i < cjk.len() && #[trigger] cjk[i] == ' '))
            ==> !universal_preferred(cjk, und, Some(conf_cjk), Some(conf_und)),
        conf_und <= conf_cjk && und.len() > 3 && !(exists|i: int| 0 <= i < und.len() && #[trigger] und[i] == ' ')
            ==> !universal_preferred(cjk, und, Some(conf_cjk), Some(conf_und)),
{
    if exists|i: int| 0 <= i < und.len() && #[trigger] und[i] == ' ' {
        let i = choose|i: int| 0 <= i < und.len() && #[trigger] und[i] == ' ';
        assert(und.contains(' '));
    }
}

/// An opening bracket counts as closed if its closer is one of the next five
/// characters, and not if none of them is a closer; no other character does.
pub proof fn law_brackets_close_within_five(s: Seq<char>, pos: int, q: int)
    requires
        0 <= pos < s.len(),
    ensures
        pos < q <= pos + 5 && q < s.len() && (s[pos] == '(' && s[q] == ')' || s[pos] == '（' && s[q] == '）' || s[pos]
            == '「' && s[q] == '」' || s[pos] == '【' && s[q] == '】' || s[pos] == '『' && s[q] == '』' || s[pos] == '['
            && s[q] == ']' || s[pos] == '{' && s[q] == '}') ==> is_bracketed(s, pos),
        (forall|r: int|
            pos < r <= pos + 5 && r < s.len() ==> (#[trigger] s[r]) != ')' && s[r] != '）' && s[r] != '」' && s[r] != '】'
                && s[r] != '』' && s[r] != ']' && s[r] != '}') ==> !is_bracketed(s, pos),
        s[pos] != '(' && s[pos] != '（' && s[pos] != '「' && s[pos] != '【' && s[pos] != '『' && s[pos] != '[' && s[pos]
            != '{' ==> !is_bracketed(s, pos),
{
}

} // verus!
