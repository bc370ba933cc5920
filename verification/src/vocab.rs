//! Vocabularies: from a JSON object of numbered characters, or from lines.

use std::collections::HashMap;

use vstd::prelude::*;

use crate::chars;
use crate::decimal;

verus! {

/// The error type of `serde_json`.
#[verifier::external_type_specification]
#[verifier::external_body]
pub struct ExJsonError(serde_json::Error);

/// The object that `serde_json::from_str` reads from a text: texts by texts, or
/// `None` if the text is no such object.
pub uninterp spec fn json_object(content: Seq<char>) -> Option<Map<Seq<char>, Seq<char>>>;

/// The entries list an object: each key once, with its value.
pub open spec fn lists(entries: Seq<(Seq<char>, Seq<char>)>, object: Map<Seq<char>, Seq<char>>) -> bool {
    &&& forall|p: int|
        0 <= p < entries.len() ==> object.contains_key((#[trigger] entries[p]).0) && object[entries[p].0] == entries[p].1
    &&& forall|key: Seq<char>| #[trigger]
        object.contains_key(key) ==> exists|p: int| 0 <= p < entries.len() && (#[trigger] entries[p]).0 == key
    &&& forall|p: int, q: int|
        0 <= p < q < entries.len() ==> (#[trigger] entries[p]).0 != (#[trigger] entries[q]).0
}

/// The entries as sequences.
pub open spec fn entry_texts(entries: Seq<(String, String)>) -> Seq<(Seq<char>, Seq<char>)> {
    Seq::new(entries.len(), |p: int| (entries[p].0@, entries[p].1@))
}

/// `serde_json::from_str` into a map of texts: what it reads, and whether it
/// fails, is fixed by the text. The entries come in no certain order.
#[verifier::external_body]
fn parse_object(content: &str) -> (parsed: Result<Vec<(String, String)>, serde_json::Error>)
    ensures
        match parsed {
            Ok(entries) => json_object(content@) is Some && lists(
                entry_texts(entries@),
                json_object(content@)->0,
            ),
            Err(_) => json_object(content@) is None,
        },
{
    let object: HashMap<String, String> = serde_json::from_str(content)?;
    Ok(object.into_iter().collect())
}

/// The number that a key is: digits, with or without a plus sign before them,
/// that fit in the machine's word.
pub open spec fn index_of(key: Seq<char>) -> Option<nat> {
    let digits = if key.len() > 0 && key[0] == '+' {
        key.skip(1)
    } else {
        key
    };
    if digits.len() > 0 && decimal::all_digits(digits) && decimal::value(digits) <= usize::MAX {
        Some(decimal::value(digits) as nat)
    } else {
        None
    }
}

fn parse_index(key: &str) -> (index: Option<usize>)
    ensures
        match index {
            Some(i) => index_of(key@) == Some(i as nat),
            None => index_of(key@) is None,
        },
{
    let s = chars::chars_of(key);
    let from: usize = if s.len() > 0 && s[0] == '+' {
        1
    } else {
        0
    };
    let ghost digits = s@.skip(from as int);
    assert(from == 0 ==> digits =~= s@);
    if from == s.len() {
        return None;
    }
    let mut sum: u128 = 0;
    let mut k: usize = from;
    assert(digits.take(0) =~= Seq::empty());
    while k < s.len()
        invariant
            from <= k <= s.len(),
            s@ == key@,
            digits == s@.skip(from as int),
            index_of(key@) == if digits.len() > 0 && decimal::all_digits(digits) && decimal::value(digits)
                <= usize::MAX {
                Some(decimal::value(digits) as nat)
            } else {
                None
            },
            decimal::all_digits(digits.take(k - from)),
            sum == decimal::value(digits.take(k - from)),
            sum <= usize::MAX,
        decreases s.len() - k,
    {
        let c = s[k];
        let ghost before = digits.take(k - from);
        let ghost after = digits.take(k + 1 - from);
        assert(after.drop_last() =~= before);
        assert(after.last() == c);
        assert(digits[k - from] == c);
        if !chars::digit(c) {
            return None;
        }
        sum = sum * 10 + (c as u32 - '0' as u32) as u128;
        assert(decimal::all_digits(after)) by {
            assert forall|i: int| 0 <= i < after.len() implies chars::is_digit(#[trigger] after[i]) by {
                if i < before.len() {
                    assert(after[i] == before[i]);
                }
            }
        }
        if sum > usize::MAX as u128 {
            proof {
                if decimal::all_digits(digits) {
                    decimal::lemma_value_grows(digits, k + 1 - from);
                }
            }
            return None;
        }
        k = k + 1;
    }
    assert(digits.take(digits.len() as int) =~= digits);
    Some(sum as usize)
}

/// The largest index of the first `k` entries, 0 if there is none.
pub open spec fn largest_index(entries: Seq<(Seq<char>, Seq<char>)>, k: int) -> nat
    decreases k,
{
    if k <= 0 {
        0
    } else {
        let before = largest_index(entries, k - 1);
        match index_of(entries[k - 1].0) {
            Some(i) => if i > before {
                i
            } else {
                before
            },
            None => before,
        }
    }
}

/// The character with index `i`: that of the last of the first `k` entries with
/// this index, or none.
pub open spec fn character(entries: Seq<(Seq<char>, Seq<char>)>, i: int, k: int) -> Seq<char>
    decreases k,
{
    if k <= 0 {
        Seq::empty()
    } else if index_of(entries[k - 1].0) == Some(i as nat) {
        entries[k - 1].1
    } else {
        character(entries, i, k - 1)
    }
}

/// The vocabulary that entries make.
pub open spec fn vocabulary(entries: Seq<(Seq<char>, Seq<char>)>) -> Seq<Seq<char>> {
    Seq::new(
        largest_index(entries, entries.len() as int) + 1,
        |i: int| character(entries, i, entries.len() as int),
    )
}

/// The texts as sequences.
pub open spec fn texts(vocab: Seq<String>) -> Seq<Seq<char>> {
    Seq::new(vocab.len(), |p: int| vocab[p]@)
}

fn find_largest(entries: &Vec<(String, String)>) -> (largest: usize)
    ensures
        largest == largest_index(entry_texts(entries@), entries.len() as int),
{
    let ghost model = entry_texts(entries@);
    let mut largest: usize = 0;
    let mut k: usize = 0;
    while k < entries.len()
        invariant
            k <= entries.len(),
            model == entry_texts(entries@),
            largest == largest_index(model, k as int),
        decreases entries.len() - k,
    {
        assert(model[k as int].0 == entries[k as int].0@);
        match parse_index(entries[k].0.as_str()) {
            Some(i) => {
                if i > largest {
                    largest = i;
                }
            },
            None => {},
        }
        k = k + 1;
    }
    largest
}

proof fn lemma_index_bound(entries: Seq<(Seq<char>, Seq<char>)>, p: int, k: int)
    requires
        0 <= p < k <= entries.len(),
    ensures
        index_of(entries[p].0) matches Some(i) ==> i <= largest_index(entries, k),
    decreases k,
{
    if p < k - 1 {
        lemma_index_bound(entries, p, k - 1);
    }
}

/// Makes a vocabulary of entries: each character at the place that its key
/// tells, and empty places between. Entries whose keys are no numbers are left
/// out.
pub fn build_vocab(entries: &Vec<(String, String)>) -> (vocab: Vec<String>)
    requires
        largest_index(entry_texts(entries@), entries.len() as int) < usize::MAX,
    ensures
        texts(vocab@) == vocabulary(entry_texts(entries@)),
{
    let ghost model = entry_texts(entries@);
    let largest = find_largest(entries);
    let size: usize = largest + 1;
    let mut vocab: Vec<String> = Vec::new();
    while vocab.len() < size
        invariant
            vocab.len() <= size,
            forall|i: int| 0 <= i < vocab.len() ==> (#[trigger] vocab[i])@ == Seq::<char>::empty(),
        decreases size - vocab.len(),
    {
        let empty = String::new();
        assert(empty@ =~= Seq::empty());
        vocab.push(empty);
    }
    let mut k: usize = 0;
    while k < entries.len()
        invariant
            k <= entries.len(),
            model == entry_texts(entries@),
            vocab.len() == size,
            size == largest_index(model, entries.len() as int) + 1,
            forall|i: int| 0 <= i < vocab.len() ==> (#[trigger] vocab[i])@ == character(model, i, k as int),
        decreases entries.len() - k,
    {
        assert(model[k as int] == (entries[k as int].0@, entries[k as int].1@));
        match parse_index(entries[k].0.as_str()) {
            Some(i) => {
                proof {
                    lemma_index_bound(model, k as int, entries.len() as int);
                }
                vocab.set(i, entries[k].1.clone());
            },
            None => {},
        }
        k = k + 1;
    }
    assert(texts(vocab@) =~= vocabulary(model));
    vocab
}

/// Why a vocabulary could not be read.
pub enum VocabError {
    /// The text is no JSON object of texts.
    Malformed(serde_json::Error),
    /// An index leaves no room for a place behind it.
    TooLarge,
}

/// Reads a vocabulary from a JSON object with numbers as keys and characters as
/// values.
pub fn vocab_from_json(content: &str) -> (vocab: Result<Vec<String>, VocabError>)
    ensures
        match vocab {
            Ok(v) => json_object(content@) is Some && exists|entries: Seq<(Seq<char>, Seq<char>)>|
                lists(entries, json_object(content@)->0) && texts(v@) == #[trigger] vocabulary(entries),
            Err(VocabError::Malformed(_)) => json_object(content@) is None,
            Err(VocabError::TooLarge) => json_object(content@) is Some && exists|key: Seq<char>| #[trigger]
                json_object(content@)->0.contains_key(key) && index_of(key) == Some(usize::MAX as nat),
        },
{
    match parse_object(content) {
        Ok(entries) => {
            let ghost model = entry_texts(entries@);
            let largest = find_largest(&entries);
            if largest == usize::MAX {
                proof {
                    let p = lemma_largest_is_had(model, model.len() as int);
                    assert(json_object(content@)->0.contains_key(model[p].0));
                }
                return Err(VocabError::TooLarge);
            }
            let vocab = build_vocab(&entries);
            assert(texts(vocab@) == vocabulary(model));
            Ok(vocab)
        },
        Err(error) => Err(VocabError::Malformed(error)),
    }
}

proof fn lemma_largest_is_had(entries: Seq<(Seq<char>, Seq<char>)>, k: int) -> (p: int)
    requires
        0 <= k <= entries.len(),
        largest_index(entries, k) > 0,
    ensures
        0 <= p < k,
        index_of(entries[p].0) == Some(largest_index(entries, k)),
    decreases k,
{
    if index_of(entries[k - 1].0) == Some(largest_index(entries, k)) {
        k - 1
    } else {
        lemma_largest_is_had(entries, k - 1)
    }
}

/// Each place of a vocabulary holds the character of an entry with its index, or
/// nothing if there is none; no entry's index lies outside.
pub proof fn law_vocabulary_holds_entries(entries: Seq<(Seq<char>, Seq<char>)>, p: int, i: int)
    requires
        0 <= p < entries.len(),
        index_of(entries[p].0) == Some(i as nat),
        0 <= i,
    ensures
        i < vocabulary(entries).len(),
        exists|q: int|
            p <= q < entries.len() && index_of((#[trigger] entries[q]).0) == Some(i as nat) && vocabulary(entries)[i]
                == entries[q].1,
{
    lemma_index_bound(entries, p, entries.len() as int);
    lemma_character(entries, p, i, entries.len() as int);
}

proof fn lemma_character(entries: Seq<(Seq<char>, Seq<char>)>, p: int, i: int, k: int)
    requires
        0 <= p < k <= entries.len(),
        index_of(entries[p].0) == Some(i as nat),
        0 <= i,
    ensures
        exists|q: int|
            p <= q < k && index_of((#[trigger] entries[q]).0) == Some(i as nat) && character(entries, i, k)
                == entries[q].1,
    decreases k,
{
    if index_of(entries[k - 1].0) == Some(i as nat) {
        assert(character(entries, i, k) == entries[k - 1].1);
    } else {
        lemma_character(entries, p, i, k - 1);
    }
}

/// The lines of a text from `i` on, `start` being where the line begins. A line
/// ends with a line feed, before which a carriage return is left out; what
/// follows the last line feed is a line if it is not empty.
pub open spec fn lines_from(s: Seq<char>, start: int, i: int) -> Seq<Seq<char>>
    decreases s.len() - i,
{
    if i >= s.len() {
        if start < s.len() {
            seq![s.subrange(start, s.len() as int)]
        } else {
            Seq::empty()
        }
    } else if s[i] == '\n' {
        seq![
            s.subrange(
                start,
                if start < i && s[i - 1] == '\r' {
                    i - 1
                } else {
                    i
                },
            ),
        ] + lines_from(s, i + 1, i + 1)
    } else {
        lines_from(s, start, i + 1)
    }
}

/// Reads a vocabulary of one entry a line.
pub fn vocab_from_lines(content: &str) -> (vocab: Vec<String>)
    ensures
        texts(vocab@) == lines_from(content@, 0, 0),
{
    let s = chars::chars_of(content);
    let mut vocab: Vec<String> = Vec::new();
    let mut start: usize = 0;
    let mut i: usize = 0;
    assert(texts(vocab@) + lines_from(s@, 0, 0) =~= lines_from(s@, 0, 0));
    while i < s.len()
        invariant
            start <= i <= s.len(),
            texts(vocab@) + lines_from(s@, start as int, i as int) == lines_from(s@, 0, 0),
        decreases s.len() - i,
    {
        if s[i] == '\n' {
            let ghost before = texts(vocab@);
            let end: usize = if start < i && s[i - 1] == '\r' {
                i - 1
            } else {
                i
            };
            let line = chars::text_of(&chars::slice_of(&s, start, end));
            let ghost model = line@;
            let ghost rest = lines_from(s@, i + 1, i + 1);
            vocab.push(line);
            assert(texts(vocab@) =~= before.push(model));
            assert(before + (seq![model] + rest) =~= before.push(model) + rest);
            start = i + 1;
        }
        i = i + 1;
    }
    if start < s.len() {
        let ghost before = texts(vocab@);
        let line = chars::text_of(&chars::slice_of(&s, start, s.len()));
        let ghost model = line@;
        vocab.push(line);
        assert(texts(vocab@) =~= before + seq![model]);
    } else {
        assert(texts(vocab@) + Seq::<Seq<char>>::empty() =~= texts(vocab@));
    }
    vocab
}

/// A key that is a number, filled up with zeros or not, with a plus sign before it
/// or not, is read as that number; one with any other character is no number.
pub proof fn law_keys_are_numbers(n: nat, width: nat, key: Seq<char>, i: int)
    requires
        n <= usize::MAX,
        0 <= i < key.len(),
        !('0' <= key[i] <= '9') && (i > 0 || key[0] != '+'),
    ensures
        index_of(decimal::padded(n, width)) == Some(n),
        index_of(seq!['+'] + decimal::padded(n, width)) == Some(n),
        index_of(key) is None,
        index_of(Seq::empty()) is None,
{
    let digits = decimal::padded(n, width);
    decimal::law_padded_stands_for_number(n, width);
    decimal::lemma_padded_is_some(n, width);
    assert(chars::is_digit(digits[0]));
    assert((seq!['+'] + digits).skip(1) =~= digits);
    let rest = key.skip(1);
    if i > 0 {
        assert(rest[i - 1] == key[i]);
    }
}

/// A place of the vocabulary without an entry is empty, and there is no place behind
/// the largest index.
pub proof fn law_places_without_entry_are_empty(entries: Seq<(Seq<char>, Seq<char>)>, i: int)
    requires
        0 <= i,
        forall|p: int| 0 <= p < entries.len() ==> index_of((#[trigger] entries[p]).0) != Some(i as nat),
    ensures
        i < vocabulary(entries).len() ==> vocabulary(entries)[i].len() == 0,
        (forall|p: int|
            0 <= p < entries.len() ==> (index_of((#[trigger] entries[p]).0) matches Some(j) ==> j < i)) && i > 0
            ==> i >= vocabulary(entries).len(),
{
    lemma_no_character(entries, i, entries.len() as int);
    let n = entries.len() as int;
    if largest_index(entries, n) > 0 {
        let p = lemma_largest_is_had(entries, n);
        assert(index_of(entries[p].0) == Some(largest_index(entries, n)));
    }
}

proof fn lemma_no_character(entries: Seq<(Seq<char>, Seq<char>)>, i: int, k: int)
    requires
        0 <= k <= entries.len(),
        forall|p: int| 0 <= p < entries.len() ==> index_of((#[trigger] entries[p]).0) != Some(i as nat),
    ensures
        character(entries, i, k).len() == 0,
    decreases k,
{
    if k > 0 {
        assert(index_of(entries[k - 1].0) != Some(i as nat));
        lemma_no_character(entries, i, k - 1);
    }
}

/// Lines of text, each closed by a line feed, after a carriage return or not.
pub open spec fn written(lines: Seq<(Seq<char>, bool)>) -> Seq<char>
    decreases lines.len(),
{
    if lines.len() == 0 {
        Seq::empty()
    } else {
        let (line, with_return) = lines[0];
        line + (if with_return {
            seq!['\r', '\n']
        } else {
            seq!['\n']
        }) + written(lines.skip(1))
    }
}

proof fn lemma_passed_over(s: Seq<char>, start: int, i: int, end: int)
    requires
        0 <= start <= i <= end <= s.len(),
        forall|k: int| i <= k < end ==> #[trigger] s[k] != '\n',
    ensures
        lines_from(s, start, i) == lines_from(s, start, end),
    decreases end - i,
{
    if i < end {
        assert(s[i] != '\n');
        lemma_passed_over(s, start, i + 1, end);
    }
}

proof fn lemma_written_is_read(before: Seq<char>, lines: Seq<(Seq<char>, bool)>, last: Seq<char>)
    requires
        forall|p: int, i: int|
            0 <= p < lines.len() && 0 <= i < lines[p].0.len() ==> #[trigger] lines[p].0[i] != '\n' && lines[p].0[i] != '\r',
        forall|i: int| 0 <= i < last.len() ==> #[trigger] last[i] != '\n',
    ensures
        lines_from(before + written(lines) + last, before.len() as int, before.len() as int) == Seq::new(
            lines.len(),
            |p: int| lines[p].0,
        ) + (if last.len() > 0 {
            seq![last]
        } else {
            Seq::empty()
        }),
    decreases lines.len(),
{
    let s = before + written(lines) + last;
    let start = before.len() as int;
    let texts = Seq::new(lines.len(), |p: int| lines[p].0);
    if lines.len() == 0 {
        assert forall|k: int| start <= k < s.len() implies #[trigger] s[k] != '\n' by {
            assert(s[k] == last[k - start]);
        }
        lemma_passed_over(s, start, start, s.len() as int);
        assert(texts =~= Seq::empty());
        if last.len() > 0 {
            assert(s.subrange(start, s.len() as int) =~= last);
            assert(texts + seq![last] =~= seq![last]);
        } else {
            assert(texts + Seq::<Seq<char>>::empty() =~= Seq::empty());
        }
    } else {
        let (line, with_return) = lines[0];
        let close = if with_return {
            seq!['\r', '\n']
        } else {
            seq!['\n']
        };
        let rest = lines.skip(1);
        let head = before + line + close;
        assert(s =~= head + written(rest) + last);
        assert forall|p: int, i: int| 0 <= p < rest.len() && 0 <= i < rest[p].0.len() implies #[trigger] rest[p].0[i]
            != '\n' && rest[p].0[i] != '\r' by {
            assert(rest[p] == lines[p + 1]);
            assert(lines[p + 1].0[i] != '\n');
        }
        lemma_written_is_read(head, rest, last);
        let feed = head.len() - 1;
        assert forall|k: int| start <= k < feed implies #[trigger] s[k] != '\n' by {
            if k < start + line.len() {
                assert(s[k] == lines[0].0[k - start]);
            }
        }
        assert(s[feed] == '\n');
        lemma_passed_over(s, start, start, feed);
        if start < feed && !with_return {
            assert(s[feed - 1] == lines[0].0[feed - 1 - start]);
        }
        assert(s.subrange(start, start + line.len()) =~= line);
        let tail = if last.len() > 0 {
            seq![last]
        } else {
            Seq::empty()
        };
        let others = Seq::new(rest.len(), |p: int| rest[p].0);
        assert(seq![line] + (others + tail) =~= texts + tail);
    }
}

/// Lines that were written are read back, whether or not they end with a carriage
/// return; so is a last line that is not closed.
pub proof fn law_lines_are_read_back(lines: Seq<(Seq<char>, bool)>, last: Seq<char>)
    requires
        forall|p: int, i: int|
            0 <= p < lines.len() && 0 <= i < lines[p].0.len() ==> #[trigger] lines[p].0[i] != '\n' && lines[p].0[i] != '\r',
        forall|i: int| 0 <= i < last.len() ==> #[trigger] last[i] != '\n',
    ensures
        lines_from(written(lines) + last, 0, 0) == Seq::new(lines.len(), |p: int| lines[p].0) + (if last.len() > 0 {
            seq![last]
        } else {
            Seq::empty()
        }),
{
    lemma_written_is_read(Seq::empty(), lines, last);
    assert(Seq::<char>::empty() + written(lines) + last =~= written(lines) + last);
}

} // verus!
