//! Characters and texts.

use vstd::prelude::*;

verus! {

/// Whether `char::is_alphanumeric` holds of a character.
pub uninterp spec fn alphanumeric(c: char) -> bool;

/// `char::is_alphanumeric`: fixed by the character. Among the ASCII characters
/// it holds of the letters and the digits.
pub assume_specification[ char::is_alphanumeric ](c: char) -> (yes: bool)
    ensures
        yes == alphanumeric(c),
        c <= '\u{7F}' ==> yes == (is_digit(c) || is_letter(c)),
;

/// The characters with Unicode's property White_Space: the ASCII controls from
/// tab to carriage return, the space, the next line, the spaces of other widths,
/// and the line and paragraph separators.
pub open spec fn whitespace(c: char) -> bool {
    ||| '\t' <= c <= '\r' || c == ' '
    ||| c == '\u{85}' || c == '\u{A0}' || c == '\u{1680}'
    ||| '\u{2000}' <= c <= '\u{200A}'
    ||| c == '\u{2028}' || c == '\u{2029}' || c == '\u{202F}' || c == '\u{205F}' || c == '\u{3000}'
}

/// `char::is_whitespace`: holds of the characters with Unicode's property
/// White_Space.
pub assume_specification[ char::is_whitespace ](c: char) -> (yes: bool)
    ensures
        yes == whitespace(c),
;

/// `String::push`: puts one character at the end of the text.
pub assume_specification[ String::push ](s: &mut String, c: char)
    ensures
        final(s)@ == old(s)@.push(c),
;

/// An ASCII digit.
pub open spec fn is_digit(c: char) -> bool {
    '0' <= c <= '9'
}

/// An ASCII letter.
pub open spec fn is_letter(c: char) -> bool {
    'a' <= c <= 'z' || 'A' <= c <= 'Z'
}

/// ASCII punctuation.
pub open spec fn is_punctuation(c: char) -> bool {
    '!' <= c <= '/' || ':' <= c <= '@' || '[' <= c <= '`' || '{' <= c <= '~'
}

/// A CJK ideograph.
pub open spec fn is_ideograph(c: char) -> bool {
    '\u{4E00}' <= c <= '\u{9FFF}'
}

/// A CJK ideograph of extension A.
pub open spec fn is_rare_ideograph(c: char) -> bool {
    '\u{3400}' <= c <= '\u{4DBF}'
}

/// Hiragana or katakana.
pub open spec fn is_kana(c: char) -> bool {
    '\u{3040}' <= c <= '\u{30FF}'
}

/// A Korean syllable.
pub open spec fn is_hangul(c: char) -> bool {
    '\u{AC00}' <= c <= '\u{D7AF}'
}

/// Tells whether `c` is an ASCII digit.
pub fn digit(c: char) -> (yes: bool)
    ensures
        yes == is_digit(c),
{
    '0' <= c && c <= '9'
}

/// Tells whether `c` is an ASCII letter.
pub fn letter(c: char) -> (yes: bool)
    ensures
        yes == is_letter(c),
{
    ('a' <= c && c <= 'z') || ('A' <= c && c <= 'Z')
}

/// Tells whether `c` is ASCII punctuation.
pub fn punctuation(c: char) -> (yes: bool)
    ensures
        yes == is_punctuation(c),
{
    ('!' <= c && c <= '/') || (':' <= c && c <= '@') || ('[' <= c && c <= '`') || ('{' <= c && c <= '~')
}

/// Tells whether `c` is a CJK ideograph.
pub fn ideograph(c: char) -> (yes: bool)
    ensures
        yes == is_ideograph(c),
{
    '\u{4E00}' <= c && c <= '\u{9FFF}'
}

/// Tells whether `c` is a CJK ideograph of extension A.
pub fn rare_ideograph(c: char) -> (yes: bool)
    ensures
        yes == is_rare_ideograph(c),
{
    '\u{3400}' <= c && c <= '\u{4DBF}'
}

/// Tells whether `c` is hiragana or katakana.
pub fn kana(c: char) -> (yes: bool)
    ensures
        yes == is_kana(c),
{
    '\u{3040}' <= c && c <= '\u{30FF}'
}

/// Tells whether `c` is a Korean syllable.
pub fn hangul(c: char) -> (yes: bool)
    ensures
        yes == is_hangul(c),
{
    '\u{AC00}' <= c && c <= '\u{D7AF}'
}

/// The characters of a text.
pub fn chars_of(text: &str) -> (chars: Vec<char>)
    ensures
        chars@ == text@,
{
    let mut chars: Vec<char> = Vec::new();
    for c in it: text.chars()
        invariant
            it.seq() == text@,
            chars@ == it.seq().take(it.index() as int),
    {
        chars.push(c);
    }
    assert(text@.take(text@.len() as int) =~= text@);
    chars
}

/// The text made of some characters.
pub fn text_of(chars: &Vec<char>) -> (text: String)
    ensures
        text@ == chars@,
{
    let mut text = String::new();
    let mut k: usize = 0;
    while k < chars.len()
        invariant
            k <= chars.len(),
            text@ == chars@.take(k as int),
        decreases chars.len() - k,
    {
        text.push(chars[k]);
        k = k + 1;
        assert(chars@.take(k as int) =~= chars@.take(k - 1).push(chars@[k - 1]));
    }
    assert(chars@.take(chars.len() as int) =~= chars@);
    text
}

/// Puts `more` at the end of `text`.
pub fn append_text(text: &mut String, more: &String)
    ensures
        final(text)@ == old(text)@ + more@,
{
    let ghost before = text@;
    for c in it: more.chars()
        invariant
            it.seq() == more@,
            text@ == before + more@.take(it.index() as int),
    {
        text.push(c);
        assert(text@ =~= before + more@.take(it.index() + 1));
    }
    assert(more@.take(more@.len() as int) =~= more@);
}

/// The characters from `from` up to `to`.
pub fn slice_of(chars: &Vec<char>, from: usize, to: usize) -> (part: Vec<char>)
    requires
        from <= to <= chars.len(),
    ensures
        part@ == chars@.subrange(from as int, to as int),
{
    let mut part: Vec<char> = Vec::new();
    let mut k: usize = from;
    while k < to
        invariant
            from <= k <= to <= chars.len(),
            part@ == chars@.subrange(from as int, k as int),
        decreases to - k,
    {
        part.push(chars[k]);
        k = k + 1;
        assert(chars@.subrange(from as int, k as int) =~= chars@.subrange(from as int, k - 1).push(chars@[k - 1]));
    }
    part
}

/// Puts the characters of `more` from `from` on at the end of `chars`.
pub fn append_from(chars: &mut Vec<char>, more: &Vec<char>, from: usize)
    requires
        from <= more.len(),
    ensures
        final(chars)@ == old(chars)@ + more@.skip(from as int),
{
    let ghost before = chars@;
    let mut k: usize = from;
    assert(more@.subrange(from as int, from as int) =~= Seq::empty());
    while k < more.len()
        invariant
            from <= k <= more.len(),
            chars@ == before + more@.subrange(from as int, k as int),
        decreases more.len() - k,
    {
        chars.push(more[k]);
        k = k + 1;
        assert(chars@ =~= before + more@.subrange(from as int, k as int));
    }
    assert(more@.subrange(from as int, more.len() as int) =~= more@.skip(from as int));
}

/// The text without whitespace at its end.
pub open spec fn trimmed_end(s: Seq<char>) -> Seq<char>
    decreases s.len(),
{
    if s.len() > 0 && whitespace(s.last()) {
        trimmed_end(s.drop_last())
    } else {
        s
    }
}

/// The text without whitespace at its start.
pub open spec fn trimmed_start(s: Seq<char>) -> Seq<char>
    decreases s.len(),
{
    if s.len() > 0 && whitespace(s.first()) {
        trimmed_start(s.drop_first())
    } else {
        s
    }
}

/// The text without whitespace at its ends.
pub open spec fn trimmed(s: Seq<char>) -> Seq<char> {
    trimmed_end(trimmed_start(s))
}

/// Takes the whitespace off both ends.
pub fn trim(chars: &Vec<char>) -> (inner: Vec<char>)
    ensures
        inner@ == trimmed(chars@),
{
    let mut from: usize = 0;
    assert(chars@.skip(0) =~= chars@);
    while from < chars.len() && chars[from].is_whitespace()
        invariant
            from <= chars.len(),
            trimmed_start(chars@) == trimmed_start(chars@.skip(from as int)),
        decreases chars.len() - from,
    {
        assert(chars@.skip(from as int).first() == chars@[from as int]);
        assert(chars@.skip(from as int).drop_first() =~= chars@.skip(from + 1));
        from = from + 1;
    }
    let ghost tail = chars@.skip(from as int);
    assert(trimmed_start(chars@) == tail) by {
        if from < chars.len() {
            assert(tail.first() == chars@[from as int]);
        }
    }
    let mut to: usize = chars.len();
    assert(chars@.subrange(from as int, to as int) =~= tail);
    while from < to && chars[to - 1].is_whitespace()
        invariant
            from <= to <= chars.len(),
            trimmed_end(tail) == trimmed_end(chars@.subrange(from as int, to as int)),
        decreases to - from,
    {
        let ghost part = chars@.subrange(from as int, to as int);
        assert(part.last() == chars@[to - 1]);
        assert(part.drop_last() =~= chars@.subrange(from as int, to - 1));
        to = to - 1;
    }
    assert(trimmed_end(tail) == chars@.subrange(from as int, to as int)) by {
        let part = chars@.subrange(from as int, to as int);
        if from < to {
            assert(part.last() == chars@[to - 1]);
        }
    }
    slice_of(chars, from, to)
}

/// A trimmed text neither begins nor ends with whitespace.
pub proof fn law_trimmed_has_no_margin(s: Seq<char>)
    ensures
        trimmed(s).len() > 0 ==> !whitespace(trimmed(s).first()) && !whitespace(trimmed(s).last()),
{
    lemma_trimmed_start(s);
    lemma_trimmed_end(trimmed_start(s));
}

proof fn lemma_trimmed_start(s: Seq<char>)
    ensures
        trimmed_start(s).len() > 0 ==> !whitespace(trimmed_start(s).first()),
    decreases s.len(),
{
    if s.len() > 0 && whitespace(s.first()) {
        lemma_trimmed_start(s.drop_first());
    }
}

proof fn lemma_trimmed_end(s: Seq<char>)
    ensures
        trimmed_end(s).len() > 0 ==> !whitespace(trimmed_end(s).last()) && trimmed_end(s).first() == s.first(),
    decreases s.len(),
{
    if s.len() > 0 && whitespace(s.last()) {
        lemma_trimmed_end(s.drop_last());
    }
}

/// Trimming twice is trimming once.
pub proof fn law_trimming_is_idempotent(s: Seq<char>)
    ensures
        trimmed(trimmed(s)) == trimmed(s),
{
    law_trimmed_has_no_margin(s);
}

proof fn lemma_start_is_trimmed(front: Seq<char>, s: Seq<char>)
    requires
        forall|i: int| 0 <= i < front.len() ==> whitespace(#[trigger] front[i]),
        s.len() > 0,
        !whitespace(s[0]),
    ensures
        trimmed_start(front + s) == s,
    decreases front.len(),
{
    if front.len() == 0 {
        assert(front + s =~= s);
    } else {
        assert((front + s).first() == front[0]);
        assert((front + s).drop_first() =~= front.drop_first() + s);
        lemma_start_is_trimmed(front.drop_first(), s);
    }
}

proof fn lemma_end_is_trimmed(s: Seq<char>, tail: Seq<char>)
    requires
        forall|i: int| 0 <= i < tail.len() ==> whitespace(#[trigger] tail[i]),
        s.len() > 0,
        !whitespace(s[s.len() - 1]),
    ensures
        trimmed_end(s + tail) == s,
    decreases tail.len(),
{
    if tail.len() == 0 {
        assert(s + tail =~= s);
    } else {
        assert((s + tail).last() == tail[tail.len() - 1]);
        assert((s + tail).drop_last() =~= s + tail.drop_last());
        lemma_end_is_trimmed(s, tail.drop_last());
    }
}

/// Trimming takes all whitespace off both ends of a text, and nothing else.
pub proof fn law_margins_are_trimmed(front: Seq<char>, s: Seq<char>, tail: Seq<char>)
    requires
        forall|i: int| 0 <= i < front.len() ==> whitespace(#[trigger] front[i]),
        forall|i: int| 0 <= i < tail.len() ==> whitespace(#[trigger] tail[i]),
        s.len() > 0,
        !whitespace(s[0]),
        !whitespace(s[s.len() - 1]),
    ensures
        trimmed(front + s + tail) == s,
{
    assert(front + s + tail =~= front + (s + tail));
    lemma_start_is_trimmed(front, s + tail);
    lemma_end_is_trimmed(s, tail);
}

/// `part` can be had from `whole` by leaving characters out.
pub open spec fn left_of(part: Seq<char>, whole: Seq<char>) -> bool
    decreases whole.len(),
{
    if part.len() == 0 {
        true
    } else if whole.len() == 0 {
        false
    } else if part.last() == whole.last() {
        left_of(part.drop_last(), whole.drop_last())
    } else {
        left_of(part, whole.drop_last())
    }
}

/// What is left of a text is left of a longer one.
pub proof fn lemma_left_of_longer(part: Seq<char>, whole: Seq<char>, c: char)
    requires
        left_of(part, whole),
    ensures
        left_of(part, whole.push(c)),
    decreases whole.len(), 1int,
{
    assert(whole.push(c).drop_last() =~= whole);
    if part.len() > 0 && part.last() == c {
        lemma_left_of_shorter(part, whole);
    }
}

/// What is left of a text can be cut at its end.
pub proof fn lemma_left_of_shorter(part: Seq<char>, whole: Seq<char>)
    requires
        left_of(part, whole),
        part.len() > 0,
    ensures
        left_of(part.drop_last(), whole),
    decreases whole.len(), 0int,
{
    let before = whole.drop_last();
    if part.last() == whole.last() {
        lemma_left_of_longer(part.drop_last(), before, whole.last());
    } else {
        lemma_left_of_shorter(part, before);
        lemma_left_of_longer(part.drop_last(), before, whole.last());
    }
    assert(before.push(whole.last()) =~= whole);
}

/// All of a text is left of it.
pub proof fn lemma_left_of_self(s: Seq<char>)
    ensures
        left_of(s, s),
    decreases s.len(),
{
    if s.len() > 0 {
        lemma_left_of_self(s.drop_last());
    }
}

/// What is left of two texts is left of both together.
pub proof fn lemma_left_of_join(a: Seq<char>, b: Seq<char>, c: Seq<char>, d: Seq<char>)
    requires
        left_of(a, b),
        left_of(c, d),
    ensures
        left_of(a + c, b + d),
    decreases d.len(),
{
    if d.len() == 0 {
        assert(a + c =~= a);
        assert(b + d =~= b);
    } else {
        let before = b + d.drop_last();
        assert((b + d).drop_last() =~= before);
        if c.len() == 0 {
            lemma_left_of_join(a, b, c, d.drop_last());
            assert(a + c =~= a);
            lemma_left_of_longer(a, before, d.last());
            assert(before.push(d.last()) =~= b + d);
        } else if c.last() == d.last() {
            lemma_left_of_join(a, b, c.drop_last(), d.drop_last());
            assert((a + c).drop_last() =~= a + c.drop_last());
        } else {
            lemma_left_of_join(a, b, c, d.drop_last());
        }
    }
}

/// What is left of a text is left of it with more before it.
pub proof fn lemma_left_of_behind(part: Seq<char>, more: Seq<char>, whole: Seq<char>)
    requires
        left_of(part, whole),
    ensures
        left_of(part, more + whole),
{
    lemma_left_of_join(Seq::empty(), more, part, whole);
    assert(Seq::<char>::empty() + part =~= part);
}

/// What is left of a text is left of it with more after it.
pub proof fn lemma_left_of_ahead(part: Seq<char>, whole: Seq<char>, more: Seq<char>)
    requires
        left_of(part, whole),
    ensures
        left_of(part, whole + more),
{
    lemma_left_of_join(part, whole, Seq::empty(), more);
    assert(part + Seq::<char>::empty() =~= part);
}

/// A text that is put behind others stands at the end of all together.
pub proof fn lemma_flatten_push(words: Seq<Seq<char>>, last: Seq<char>)
    ensures
        words.push(last).flatten() == words.flatten() + last,
    decreases words.len(),
{
    let longer = words.push(last);
    if words.len() == 0 {
        assert(longer.drop_first() =~= Seq::empty());
        assert(longer.drop_first().flatten() =~= Seq::empty());
        assert(longer.flatten() =~= last);
        assert(words.flatten() + last =~= last);
    } else {
        lemma_flatten_push(words.drop_first(), last);
        assert(longer.drop_first() =~= words.drop_first().push(last));
        assert(longer.first() == words.first());
        assert(longer.flatten() =~= words.flatten() + last);
    }
}

} // verus!
