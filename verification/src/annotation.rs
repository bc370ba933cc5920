//! The annotations that the native library returns: lines of words, in the
//! protobuf wire format.

use vstd::prelude::*;

use crate::chars;
use crate::wire;
use crate::wire::ProtobufReader;

verus! {

/// Where a line lies in the image.
#[derive(Clone, Copy, Debug, PartialEq, Eq, Structural)]
pub struct BoundingBox {
    pub x: i32,
    pub y: i32,
    pub width: i32,
    pub height: i32,
}

/// A recognized line. The confidence is the bit pattern of a single precision
/// number.
#[derive(Debug)]
pub struct OcrLine {
    pub text: String,
    pub confidence: u32,
    pub bounding_box: Option<BoundingBox>,
}

impl Clone for OcrLine {
    fn clone(&self) -> (line: OcrLine)
        ensures
            line@ == self@,
    {
        OcrLine { text: self.text.clone(), confidence: self.confidence, bounding_box: self.bounding_box }
    }
}

/// What an `OcrLine` says.
pub struct Line {
    pub text: Seq<char>,
    pub confidence: u32,
    pub bounding_box: Option<BoundingBox>,
}

impl View for OcrLine {
    type V = Line;

    open spec fn view(&self) -> Line {
        Line { text: self.text@, confidence: self.confidence, bounding_box: self.bounding_box }
    }
}

/// `std::str::from_utf8`: gives the text that the bytes encode if they are valid
/// UTF-8, and an error if they are not.
#[verifier::external_body]
fn utf8_text(bytes: &[u8]) -> (text: Option<String>)
    ensures
        match text {
            Some(t) => vstd::utf8::valid_utf8(bytes@) && t@ == vstd::utf8::decode_utf8(bytes@),
            None => !vstd::utf8::valid_utf8(bytes@),
        },
{
    match std::str::from_utf8(bytes) {
        Ok(text) => Some(text.to_owned()),
        Err(_) => None,
    }
}

/// The text that the bytes encode, if they are valid and encode any.
pub open spec fn text_in(bytes: Seq<u8>) -> Option<Seq<char>> {
    if bytes.len() > 0 && vstd::utf8::valid_utf8(bytes) {
        Some(vstd::utf8::decode_utf8(bytes))
    } else {
        None
    }
}

/// A control character.
pub open spec fn is_control(c: char) -> bool {
    c <= '\u{1F}' || '\u{7F}' <= c <= '\u{9F}'
}

/// No character is a control character.
pub open spec fn is_printable(text: Seq<char>) -> bool {
    forall|i: int| 0 <= i < text.len() ==> !is_control(#[trigger] text[i])
}

/// Where reading goes on after a field that is passed over: a varint, eight
/// bytes or four.
pub open spec fn after_plain(data: Seq<u8>, pos: int, wire_type: u32) -> int {
    if wire_type == 0 {
        wire::varint(data, pos).1
    } else if wire_type == 1 {
        wire::skipped(data, pos, 8)
    } else {
        wire::skipped(data, pos, 4)
    }
}

/// The length of a field, nothing if it cannot be read.
pub open spec fn length_or_zero(length: Option<u64>) -> int {
    match length {
        Some(n) => n as int,
        None => 0,
    }
}

/// The bytes of a field, none if they are not all there.
pub open spec fn bytes_or_none(part: Option<Seq<u8>>) -> Seq<u8> {
    match part {
        Some(b) => b,
        None => Seq::empty(),
    }
}

/// Reading a tag and what follows it goes on and stays within the bytes.
pub proof fn lemma_tag_advances(data: Seq<u8>, pos: int)
    requires
        0 <= pos < data.len(),
    ensures
        pos < wire::tag(data, pos).1 <= data.len(),
        forall|w: u32| wire::tag(data, pos).1 <= #[trigger] after_plain(data, wire::tag(data, pos).1, w) <= data.len(),
        wire::tag(data, pos).1 <= wire::varint(data, wire::tag(data, pos).1).1 <= data.len(),
{
    wire::lemma_varint_advances(data, pos, 0, 0, 1);
    wire::lemma_varint_advances(data, wire::tag(data, pos).1, 0, 0, 1);
}

/// The text of a word from `pos` on, `text` being what was found before: the
/// last text in field 2.
pub open spec fn word_from(data: Seq<u8>, pos: int, text: Seq<char>) -> Seq<char>
    decreases data.len() - pos,
{
    if !(0 <= pos < data.len()) {
        text
    } else {
        proof {
            lemma_tag_advances(data, pos);
        }
        match wire::tag(data, pos) {
            (None, _) => text,
            (Some((field, wire_type)), next) => {
                if wire_type == 0 || wire_type == 1 || wire_type == 5 {
                    word_from(data, after_plain(data, next, wire_type), text)
                } else if wire_type == 2 {
                    let (length, start) = wire::varint(data, next);
                    let (part, end) = wire::bytes(data, start, length_or_zero(length));
                    let found = text_in(bytes_or_none(part));
                    word_from(
                        data,
                        end,
                        if field == 2 && found is Some {
                            found->0
                        } else {
                            text
                        },
                    )
                } else {
                    text
                }
            },
        }
    }
}

/// The text of a word annotation, if it has any.
pub open spec fn word(data: Seq<u8>) -> Option<Seq<char>> {
    let text = word_from(data, 0, Seq::empty());
    if text.len() == 0 {
        None
    } else {
        Some(text)
    }
}

/// Reads a word annotation.
pub fn decode_word_annotation(data: &[u8]) -> (found: Option<String>)
    ensures
        match found {
            Some(t) => word(data@) == Some(t@),
            None => word(data@) is None,
        },
{
    let mut reader = ProtobufReader::new(data);
    let mut text = String::new();
    assert(text@ =~= Seq::empty());
    while reader.remaining() > 0
        invariant_except_break
            word_from(data@, 0, Seq::empty()) == word_from(data@, reader.pos(), text@),
        invariant
            reader.wf(),
            reader.data() == data@,
        ensures
            word_from(data@, 0, Seq::empty()) == text@,
        decreases data@.len() - reader.pos(),
    {
        proof {
            lemma_tag_advances(data@, reader.pos());
        }
        match reader.read_tag() {
            None => {
                break;
            },
            Some((field, wire_type)) => {
                if wire_type == 0 {
                    let passed = reader.read_varint();
                } else if wire_type == 1 {
                    reader.skip(8);
                } else if wire_type == 2 {
                    let length: u64 = match reader.read_varint() {
                        Some(n) => n,
                        None => 0,
                    };
                    match reader.read_bytes(length) {
                        Some(part) => {
                            if field == 2 && part.len() > 0 {
                                match utf8_text(part) {
                                    Some(t) => {
                                        text = t;
                                    },
                                    None => {},
                                }
                            }
                        },
                        None => {},
                    }
                } else if wire_type == 5 {
                    reader.skip(4);
                } else {
                    break;
                }
            },
        }
    }
    if text.as_str().is_empty() {
        None
    } else {
        Some(text)
    }
}

/// What was found of a line: its own text, its confidence and its words.
pub struct Found {
    pub text: Seq<char>,
    pub confidence: u32,
    pub words: Seq<Seq<char>>,
}

/// The number that four bytes hold, the lowest first.
pub open spec fn word_value(b: Seq<u8>) -> u32 {
    (b[0] + b[1] * 0x100 + b[2] * 0x1_0000 + b[3] * 0x100_0000) as u32
}

impl Found {
    /// After a field of some length: field 1 is a word, field 2 or 3 the text if it
    /// is printable.
    pub open spec fn with_field(self, field: u32, part: Seq<u8>) -> Found {
        if field == 1 {
            match word(part) {
                Some(w) => Found { words: self.words.push(w), ..self },
                None => self,
            }
        } else if (field == 2 || field == 3) && text_in(part) is Some && is_printable(text_in(part)->0) {
            Found { text: text_in(part)->0, ..self }
        } else {
            self
        }
    }

    /// After a field of four bytes that may not be all there: field 3 or 4 is the
    /// confidence.
    pub open spec fn with_number(self, field: u32, part: Option<Seq<u8>>) -> Found {
        if field == 3 || field == 4 {
            Found {
                confidence: match part {
                    Some(b) => word_value(b),
                    None => 0,
                },
                ..self
            }
        } else {
            self
        }
    }
}

/// What is found of a line from `pos` on, `found` being what was found before;
/// `None` if a tag or a field with a length is cut off.
pub open spec fn line_from(data: Seq<u8>, pos: int, found: Found) -> Option<Found>
    decreases data.len() - pos,
{
    if !(0 <= pos < data.len()) {
        Some(found)
    } else {
        proof {
            lemma_tag_advances(data, pos);
        }
        match wire::tag(data, pos) {
            (None, _) => None,
            (Some((field, wire_type)), next) => {
                if wire_type == 0 || wire_type == 1 {
                    line_from(data, after_plain(data, next, wire_type), found)
                } else if wire_type == 2 {
                    match wire::varint(data, next) {
                        (None, _) => None,
                        (Some(length), start) => match wire::bytes(data, start, length as int) {
                            (None, _) => None,
                            (Some(part), end) => line_from(data, end, found.with_field(field, part)),
                        },
                    }
                } else if wire_type == 5 {
                    if field == 3 || field == 4 {
                        let (part, end) = wire::bytes(data, next, 4);
                        line_from(data, end, found.with_number(field, part))
                    } else {
                        line_from(data, wire::skipped(data, next, 4), found)
                    }
                } else {
                    Some(found)
                }
            },
        }
    }
}

/// The first `k` words, put together.
pub open spec fn words_joined(words: Seq<Seq<char>>, k: int) -> Seq<char>
    decreases k,
{
    if k <= 0 {
        Seq::empty()
    } else {
        words_joined(words, k - 1) + words[k - 1]
    }
}

/// The line that was found: its own text, or else its words; `None` if there is
/// no text.
pub open spec fn line_of(found: Found) -> Option<Line> {
    let text = if found.text.len() == 0 {
        words_joined(found.words, found.words.len() as int)
    } else {
        found.text
    };
    if text.len() == 0 {
        None
    } else {
        Some(Line { text, confidence: found.confidence, bounding_box: None })
    }
}

/// The line that an annotation holds.
pub open spec fn line(data: Seq<u8>) -> Option<Line> {
    match line_from(data, 0, Found { text: Seq::empty(), confidence: 0, words: Seq::empty() }) {
        Some(found) => line_of(found),
        None => None,
    }
}

fn printable(text: &str) -> (yes: bool)
    ensures
        yes == is_printable(text@),
{
    let s = chars::chars_of(text);
    let mut i: usize = 0;
    while i < s.len()
        invariant
            i <= s.len(),
            s@ == text@,
            forall|k: int| 0 <= k < i ==> !is_control(#[trigger] s[k]),
        decreases s.len() - i,
    {
        let c = s[i];
        if c <= '\u{1F}' || ('\u{7F}' <= c && c <= '\u{9F}') {
            assert(is_control(text@[i as int]));
            return false;
        }
        i = i + 1;
    }
    true
}

/// The words as sequences.
pub open spec fn words_of(words: Seq<String>) -> Seq<Seq<char>> {
    Seq::new(words.len(), |p: int| words[p]@)
}

/// Reads a line annotation.
#[verifier::rlimit(40)]
#[verifier::spinoff_prover]
pub fn decode_line_annotation(data: &[u8]) -> (found: Option<OcrLine>)
    ensures
        match found {
            Some(l) => line(data@) == Some(l@),
            None => line(data@) is None,
        },
{
    let mut reader = ProtobufReader::new(data);
    let mut text = String::new();
    let mut confidence: u32 = 0;
    let mut words: Vec<String> = Vec::new();
    let ghost start = Found { text: Seq::empty(), confidence: 0, words: Seq::empty() };
    assert(text@ =~= start.text);
    assert(words_of(words@) =~= start.words);
    while reader.remaining() > 0
        invariant_except_break
            line_from(data@, 0, start) == line_from(
                data@,
                reader.pos(),
                Found { text: text@, confidence, words: words_of(words@) },
            ),
        invariant
            reader.wf(),
            reader.data() == data@,
            start == (Found { text: Seq::empty(), confidence: 0, words: Seq::empty() }),
        ensures
            line_from(data@, 0, start) == Some(Found { text: text@, confidence, words: words_of(words@) }),
        decreases data@.len() - reader.pos(),
    {
        let ghost before = Found { text: text@, confidence, words: words_of(words@) };
        proof {
            lemma_tag_advances(data@, reader.pos());
        }
        match reader.read_tag() {
            None => {
                return None;
            },
            Some((field, wire_type)) => {
                if wire_type == 0 {
                    let passed = reader.read_varint();
                } else if wire_type == 1 {
                    reader.skip(8);
                } else if wire_type == 2 {
                    match reader.read_varint() {
                        None => {
                            return None;
                        },
                        Some(length) => match reader.read_bytes(length) {
                            None => {
                                return None;
                            },
                            Some(part) => {
                                if field == 1 {
                                    match decode_word_annotation(part) {
                                        Some(w) => {
                                            let ghost model = w@;
                                            words.push(w);
                                            assert(words_of(words@) =~= before.words.push(model));
                                        },
                                        None => {},
                                    }
                                } else if (field == 2 || field == 3) && part.len() > 0 {
                                    match utf8_text(part) {
                                        Some(t) => {
                                            if printable(t.as_str()) {
                                                text = t;
                                            }
                                        },
                                        None => {},
                                    }
                                }
                                assert((Found { text: text@, confidence, words: words_of(words@) })
                                    == before.with_field(field, part@));
                            },
                        },
                    }
                } else if wire_type == 5 {
                    if field == 3 || field == 4 {
                        confidence = match reader.read_bytes(4) {
                            Some(b) => b[0] as u32 + b[1] as u32 * 0x100 + b[2] as u32 * 0x1_0000 + b[3] as u32
                                * 0x100_0000,
                            None => 0,
                        };
                    } else {
                        reader.skip(4);
                    }
                } else {
                    break;
                }
            },
        }
    }
    if text.as_str().is_empty() {
        let mut k: usize = 0;
        assert(text@ =~= Seq::empty());
        while k < words.len()
            invariant
                k <= words.len(),
                text@ == words_joined(words_of(words@), k as int),
            decreases words.len() - k,
        {
            chars::append_text(&mut text, &words[k]);
            k = k + 1;
        }
    }
    if text.as_str().is_empty() {
        return None;
    }
    Some(OcrLine { text, confidence, bounding_box: None })
}

/// The lines from `pos` on.
pub open spec fn lines_from(data: Seq<u8>, pos: int) -> Seq<Line>
    decreases data.len() - pos,
{
    if !(0 <= pos < data.len()) {
        Seq::empty()
    } else {
        proof {
            lemma_tag_advances(data, pos);
        }
        match wire::tag(data, pos) {
            (None, _) => Seq::empty(),
            (Some((field, wire_type)), next) => {
                if wire_type == 0 || wire_type == 1 || wire_type == 5 {
                    lines_from(data, after_plain(data, next, wire_type))
                } else if wire_type == 2 {
                    let (length, start) = wire::varint(data, next);
                    if field == 2 {
                        let (part, end) = wire::bytes(data, start, length_or_zero(length));
                        match line(bytes_or_none(part)) {
                            Some(l) => seq![l] + lines_from(data, end),
                            None => lines_from(data, end),
                        }
                    } else {
                        lines_from(data, wire::skipped(data, start, length_or_zero(length)))
                    }
                } else {
                    Seq::empty()
                }
            },
        }
    }
}

/// The lines as `Line`.
pub open spec fn models(lines: Seq<OcrLine>) -> Seq<Line> {
    Seq::new(lines.len(), |p: int| lines[p]@)
}

/// Reads the lines of a result. Reading stops where the bytes are malformed, and
/// what was read before is kept.
#[verifier::rlimit(40)]
#[verifier::spinoff_prover]
pub fn decode_ocr_result(data: &[u8]) -> (lines: Vec<OcrLine>)
    ensures
        models(lines@) == lines_from(data@, 0),
{
    let mut reader = ProtobufReader::new(data);
    let mut lines: Vec<OcrLine> = Vec::new();
    assert(models(lines@) + lines_from(data@, 0) =~= lines_from(data@, 0));
    while reader.remaining() > 0
        invariant_except_break
            models(lines@) + lines_from(data@, reader.pos()) == lines_from(data@, 0),
        invariant
            reader.wf(),
            reader.data() == data@,
        ensures
            models(lines@) == lines_from(data@, 0),
        decreases data@.len() - reader.pos(),
    {
        let ghost before = models(lines@);
        let ghost at = reader.pos();
        proof {
            lemma_tag_advances(data@, at);
        }
        match reader.read_tag() {
            None => {
                assert(before + Seq::<Line>::empty() =~= before);
                break;
            },
            Some((field, wire_type)) => {
                if wire_type == 0 {
                    let passed = reader.read_varint();
                } else if wire_type == 1 {
                    reader.skip(8);
                } else if wire_type == 2 {
                    let length: u64 = match reader.read_varint() {
                        Some(n) => n,
                        None => 0,
                    };
                    if field == 2 {
                        let decoded = match reader.read_bytes(length) {
                            Some(part) => decode_line_annotation(part),
                            None => {
                                let none: &[u8] = &[];
                                assert(none@ =~= Seq::empty());
                                decode_line_annotation(none)
                            },
                        };
                        match decoded {
                            Some(l) => {
                                let ghost model = l@;
                                let ghost rest = lines_from(data@, reader.pos());
                                lines.push(l);
                                assert(models(lines@) =~= before.push(model));
                                assert(before + (seq![model] + rest) =~= before.push(model) + rest);
                            },
                            None => {},
                        }
                    } else {
                        reader.skip(length);
                    }
                } else if wire_type == 5 {
                    reader.skip(4);
                } else {
                    assert(before + Seq::<Line>::empty() =~= before);
                    break;
                }
            },
        }
        proof {
            if reader.pos() >= data@.len() {
                assert(models(lines@) + Seq::<Line>::empty() =~= models(lines@));
            }
        }
    }
    lines
}

/// Every line that is read has text.
pub proof fn law_lines_have_text(data: Seq<u8>, pos: int, p: int)
    requires
        0 <= p < lines_from(data, pos).len(),
    ensures
        lines_from(data, pos)[p].text.len() > 0,
        lines_from(data, pos)[p].bounding_box is None,
    decreases data.len() - pos,
{
    lemma_tag_advances(data, pos);
    match wire::tag(data, pos) {
        (None, _) => {},
        (Some((field, wire_type)), next) => {
            if wire_type == 0 || wire_type == 1 || wire_type == 5 {
                law_lines_have_text(data, after_plain(data, next, wire_type), p);
            } else if wire_type == 2 {
                let (length, start) = wire::varint(data, next);
                if field == 2 {
                    let (part, end) = wire::bytes(data, start, length_or_zero(length));
                    match line(bytes_or_none(part)) {
                        Some(l) => {
                            if p > 0 {
                                law_lines_have_text(data, end, p - 1);
                            }
                        },
                        None => {
                            law_lines_have_text(data, end, p);
                        },
                    }
                } else {
                    law_lines_have_text(data, wire::skipped(data, start, length_or_zero(length)), p);
                }
            }
        },
    }
}

/// The pixels as blue, green, red and an opaque alpha.
pub open spec fn bgra(pixels: Seq<u8>) -> Seq<u8> {
    Seq::new(
        pixels.len() * 4,
        |i: int|
            if i % 4 == 3 {
                255u8
            } else {
                pixels[i / 4]
            },
    )
}

/// Turns gray pixels into blue, green, red and alpha.
pub fn gray_to_bgra(pixels: &Vec<u8>) -> (out: Vec<u8>)
    ensures
        out@ == bgra(pixels@),
{
    let mut out: Vec<u8> = Vec::new();
    let mut k: usize = 0;
    while k < pixels.len()
        invariant
            k <= pixels.len(),
            out.len() == 4 * k,
            forall|i: int|
                0 <= i < out.len() ==> #[trigger] out[i] == if i % 4 == 3 {
                    255u8
                } else {
                    pixels[i / 4]
                },
        decreases pixels.len() - k,
    {
        let v = pixels[k];
        out.push(v);
        out.push(v);
        out.push(v);
        out.push(255);
        k = k + 1;
    }
    assert(out@ =~= bgra(pixels@));
    out
}

/// A field with a length on the wire: its tag, the length, and the bytes.
pub open spec fn sized_field(tag: u8, part: Seq<u8>) -> Seq<u8> {
    seq![tag] + wire::encoded(part.len()) + part
}

/// A number of four bytes on the wire: its tag, and the bytes, the lowest first.
pub open spec fn number_field(tag: u8, value: u32) -> Seq<u8> {
    seq![
        tag,
        (value % 0x100) as u8,
        (value / 0x100 % 0x100) as u8,
        (value / 0x1_0000 % 0x100) as u8,
        (value / 0x100_0000) as u8,
    ]
}

/// What a line annotation is made of.
pub struct Annotation {
    pub words: Seq<Seq<char>>,
    pub text: Seq<char>,
    pub confidence: u32,
    /// The text stands in field 3, not in field 2.
    pub text_in_third: bool,
    /// The confidence stands in field 4, not in field 3.
    pub number_in_fourth: bool,
}

/// The words on the wire, each in field 1 with its text in field 2.
pub open spec fn words_on_wire(words: Seq<Seq<char>>) -> Seq<u8>
    decreases words.len(),
{
    if words.len() == 0 {
        Seq::empty()
    } else {
        words_on_wire(words.drop_last()) + sized_field(
            0x0A,
            sized_field(0x12, vstd::utf8::encode_utf8(words.last())),
        )
    }
}

impl Annotation {
    /// The annotation on the wire: its words, its text if it has any, and its
    /// confidence.
    pub open spec fn on_wire(self) -> Seq<u8> {
        words_on_wire(self.words) + (if self.text.len() > 0 {
            sized_field(
                if self.text_in_third {
                    0x1A
                } else {
                    0x12
                },
                vstd::utf8::encode_utf8(self.text),
            )
        } else {
            Seq::empty()
        }) + number_field(
            if self.number_in_fourth {
                0x25
            } else {
                0x1D
            },
            self.confidence,
        )
    }

    /// The annotation has some text to show and fits on the wire; its text holds
    /// none but the characters from the space to the tilde and those from the
    /// no-break space on.
    pub open spec fn is_shown(self) -> bool {
        &&& self.text.len() > 0 || self.words.len() > 0
        &&& forall|i: int|
            0 <= i < self.text.len() ==> ' ' <= #[trigger] self.text[i] <= '~' || self.text[i] >= '\u{A0}'
        &&& forall|i: int| 0 <= i < self.words.len() ==> (#[trigger] self.words[i]).len() > 0
        &&& self.on_wire().len() <= u64::MAX
    }

    /// What the annotation shows: its text, or without one its words put together.
    pub open spec fn shown(self) -> Line {
        Line {
            text: if self.text.len() > 0 {
                self.text
            } else {
                self.words.flatten()
            },
            confidence: self.confidence,
            bounding_box: None,
        }
    }
}

proof fn lemma_tag_is_read(before: Seq<u8>, tag: u8, after: Seq<u8>)
    requires
        tag < 128,
    ensures
        wire::tag(before + seq![tag] + after, before.len() as int) == (
            Some(((tag / 8) as u32, (tag % 8) as u32)),
            (before.len() + 1) as int,
        ),
{
    wire::law_varint_is_read_back(before, tag as u64, after);
    assert(wire::encoded(tag as nat) =~= seq![tag]);
}

proof fn lemma_sized_field_is_read(before: Seq<u8>, tag: u8, part: Seq<u8>, after: Seq<u8>)
    requires
        tag < 128,
        part.len() <= u64::MAX,
    ensures
        ({
            let data = before + sized_field(tag, part) + after;
            let start = before.len() + 1 + wire::encoded(part.len()).len();
            let end = before.len() + sized_field(tag, part).len();
            &&& wire::tag(data, before.len() as int) == (
                Some(((tag / 8) as u32, (tag % 8) as u32)),
                (before.len() + 1) as int,
            )
            &&& wire::varint(data, (before.len() + 1) as int) == (Some(part.len() as u64), start as int)
            &&& wire::bytes(data, start as int, part.len() as int) == (Some(part), end as int)
            &&& before.len() < data.len()
        }),
{
    let data = before + sized_field(tag, part) + after;
    let length = wire::encoded(part.len());
    assert(data =~= before + seq![tag] + (length + part + after));
    lemma_tag_is_read(before, tag, length + part + after);
    assert(data =~= (before + seq![tag]) + length + (part + after));
    wire::law_varint_is_read_back(before + seq![tag], part.len() as u64, part + after);
    let start = (before + seq![tag] + length).len() as int;
    assert(data.subrange(start, start + part.len()) =~= part);
}

proof fn lemma_text_is_decoded(text: Seq<char>)
    requires
        text.len() > 0,
    ensures
        text_in(vstd::utf8::encode_utf8(text)) == Some(text),
{
    vstd::utf8::encode_utf8_valid_utf8(text);
    vstd::utf8::encode_utf8_decode_utf8(text);
    if vstd::utf8::encode_utf8(text).len() == 0 {
        assert(vstd::utf8::decode_utf8(vstd::utf8::encode_utf8(text)).len() == 0);
    }
}

/// A word that was written is read back.
pub proof fn law_word_is_read_back(text: Seq<char>)
    requires
        text.len() > 0,
        vstd::utf8::encode_utf8(text).len() <= u64::MAX,
    ensures
        word(sized_field(0x12, vstd::utf8::encode_utf8(text))) == Some(text),
{
    let part = vstd::utf8::encode_utf8(text);
    let data = Seq::<u8>::empty() + sized_field(0x12, part) + Seq::<u8>::empty();
    assert(data =~= sized_field(0x12, part));
    lemma_sized_field_is_read(Seq::empty(), 0x12, part, Seq::empty());
    lemma_text_is_decoded(text);
    reveal_with_fuel(word_from, 2);
}

proof fn lemma_line_goes_on(before: Seq<u8>, tag: u8, part: Seq<u8>, after: Seq<u8>, found: Found)
    requires
        tag < 128,
        tag % 8 == 2,
        part.len() <= u64::MAX,
    ensures
        ({
            let data = before + sized_field(tag, part) + after;
            line_from(data, before.len() as int, found) == line_from(
                data,
                (before.len() + sized_field(tag, part).len()) as int,
                found.with_field((tag / 8) as u32, part),
            )
        }),
{
    lemma_sized_field_is_read(before, tag, part, after);
}

proof fn lemma_words_are_read(words: Seq<Seq<char>>, after: Seq<u8>, found: Found)
    requires
        forall|i: int| 0 <= i < words.len() ==> (#[trigger] words[i]).len() > 0,
        words_on_wire(words).len() <= u64::MAX,
    ensures
        line_from(words_on_wire(words) + after, 0, found) == line_from(
            words_on_wire(words) + after,
            words_on_wire(words).len() as int,
            Found { words: found.words + words, ..found },
        ),
    decreases words.len(),
{
    if words.len() == 0 {
        assert(found.words + words =~= found.words);
    } else {
        let fewer = words.drop_last();
        let last = words.last();
        let text = vstd::utf8::encode_utf8(last);
        let inner = sized_field(0x12, text);
        let field = sized_field(0x0A, inner);
        assert(words_on_wire(fewer) + (field + after) =~= words_on_wire(words) + after);
        assert forall|i: int| 0 <= i < fewer.len() implies (#[trigger] fewer[i]).len() > 0 by {
            assert(fewer[i] == words[i]);
        }
        lemma_words_are_read(fewer, field + after, found);
        law_word_is_read_back(last);
        lemma_line_goes_on(
            words_on_wire(fewer),
            0x0A,
            inner,
            after,
            Found { words: found.words + fewer, ..found },
        );
        assert(words_on_wire(fewer) + field + after =~= words_on_wire(words) + after);
        assert((found.words + fewer).push(last) =~= found.words + words);
    }
}

proof fn lemma_words_joined(words: Seq<Seq<char>>, k: int)
    requires
        0 <= k <= words.len(),
    ensures
        words_joined(words, k) == words.take(k).flatten(),
    decreases k,
{
    if k > 0 {
        lemma_words_joined(words, k - 1);
        assert(words.take(k) =~= words.take(k - 1).push(words[k - 1]));
        chars::lemma_flatten_push(words.take(k - 1), words[k - 1]);
    } else {
        assert(words.take(0) =~= Seq::empty());
        assert(words.take(0).flatten() =~= Seq::empty());
    }
}

#[verifier::spinoff_prover]
proof fn lemma_number_is_read(before: Seq<u8>, tag: u8, value: u32, found: Found)
    requires
        tag == 0x1D || tag == 0x25,
    ensures
        line_from(before + number_field(tag, value), before.len() as int, found) == Some(
            Found { confidence: value, ..found },
        ),
{
    let field = number_field(tag, value);
    let data = before + field;
    let four = field.skip(1);
    assert(data =~= before + seq![tag] + four);
    lemma_tag_is_read(before, tag, four);
    let next = before.len() as int + 1;
    assert(data.subrange(next, next + 4) =~= four);
    assert(wire::bytes(data, next, 4) == (Some(four), next + 4));
    assert(word_value(four) == value) by {
        lemma_four_bytes(value);
    }
    let with_value = Found { confidence: value, ..found };
    assert(found.with_number((tag / 8) as u32, Some(four)) == with_value);
    assert(line_from(data, next + 4, with_value) == Some(with_value));
}

proof fn lemma_four_bytes(value: u32)
    ensures
        (value % 0x100) as u8 + ((value / 0x100 % 0x100) as u8) * 0x100 + ((value / 0x1_0000 % 0x100) as u8) * 0x1_0000
            + ((value / 0x100_0000) as u8) * 0x100_0000 == value,
{
}

/// A line annotation that was written is read back: its text as it is, spaces and
/// all, or without one its words put together; and its confidence.
pub proof fn law_line_is_read_back(a: Annotation)
    requires
        a.is_shown(),
    ensures
        line(a.on_wire()) == Some(a.shown()),
{
    let start = Found { text: Seq::empty(), confidence: 0, words: Seq::empty() };
    let tag: u8 = if a.text_in_third {
        0x1A
    } else {
        0x12
    };
    let number_tag: u8 = if a.number_in_fourth {
        0x25
    } else {
        0x1D
    };
    let text = vstd::utf8::encode_utf8(a.text);
    let number = number_field(number_tag, a.confidence);
    let middle = if a.text.len() > 0 {
        sized_field(tag, text)
    } else {
        Seq::empty()
    };
    let words = words_on_wire(a.words);
    let data = a.on_wire();
    assert(data =~= words + (middle + number));
    lemma_words_are_read(a.words, middle + number, start);
    assert(start.words + a.words =~= a.words);
    let found = Found { words: a.words, ..start };
    assert(data =~= words + middle + number);
    if a.text.len() > 0 {
        lemma_text_is_decoded(a.text);
        lemma_line_goes_on(words, tag, text, number, found);
        assert(is_printable(a.text)) by {
            assert forall|i: int| 0 <= i < a.text.len() implies !is_control(#[trigger] a.text[i]) by {
                assert(' ' <= a.text[i] <= '~' || a.text[i] >= '\u{A0}');
            }
        }
        lemma_number_is_read(words + middle, number_tag, a.confidence, Found { text: a.text, ..found });
    } else {
        assert(words + middle =~= words);
        lemma_number_is_read(words + middle, number_tag, a.confidence, found);
        lemma_words_joined(a.words, a.words.len() as int);
        assert(a.words.take(a.words.len() as int) =~= a.words);
        lemma_words_joined_some(a.words, a.words.len() as int);
    }
}

proof fn lemma_words_joined_some(words: Seq<Seq<char>>, k: int)
    requires
        0 < k <= words.len(),
        forall|i: int| 0 <= i < words.len() ==> (#[trigger] words[i]).len() > 0,
    ensures
        words_joined(words, k).len() > 0,
{
    assert(words[k - 1].len() > 0);
}

/// A text with a control character is not taken: an annotation with no other text
/// is no line.
pub proof fn law_control_characters_are_refused(text: Seq<char>, i: int)
    requires
        0 <= i < text.len(),
        text[i] < ' ' || '\u{7F}' <= text[i] <= '\u{9F}',
        vstd::utf8::encode_utf8(text).len() <= u64::MAX,
    ensures
        line(sized_field(0x12, vstd::utf8::encode_utf8(text))) is None,
        line(sized_field(0x1A, vstd::utf8::encode_utf8(text))) is None,
{
    let part = vstd::utf8::encode_utf8(text);
    let start = Found { text: Seq::empty(), confidence: 0, words: Seq::empty() };
    lemma_text_is_decoded(text);
    assert(is_control(text[i]));
    assert(!is_printable(text));
    assert forall|tag: u8| tag == 0x12 || tag == 0x1A implies line(#[trigger] sized_field(tag, part)) is None by {
        assert(Seq::<u8>::empty() + sized_field(tag, part) + Seq::<u8>::empty() =~= sized_field(tag, part));
        lemma_line_goes_on(Seq::empty(), tag, part, Seq::empty(), start);
    }
}

/// Some annotations on the wire, each in field 2.
pub open spec fn result_on_wire(all: Seq<Annotation>) -> Seq<u8>
    decreases all.len(),
{
    if all.len() == 0 {
        Seq::empty()
    } else {
        sized_field(0x12, all.first().on_wire()) + result_on_wire(all.drop_first())
    }
}

proof fn lemma_result_is_read(before: Seq<u8>, all: Seq<Annotation>)
    requires
        forall|i: int| 0 <= i < all.len() ==> (#[trigger] all[i]).is_shown(),
    ensures
        lines_from(before + result_on_wire(all), before.len() as int) == Seq::new(all.len(), |i: int| all[i].shown()),
    decreases all.len(),
{
    let data = before + result_on_wire(all);
    let expected = Seq::new(all.len(), |i: int| all[i].shown());
    if all.len() == 0 {
        assert(expected =~= Seq::empty());
    } else {
        let first = all[0];
        assert(all.first() == first);
        let rest = all.drop_first();
        let field = sized_field(0x12, first.on_wire());
        assert(data =~= before + field + result_on_wire(rest));
        assert(first.is_shown());
        lemma_sized_field_is_read(before, 0x12, first.on_wire(), result_on_wire(rest));
        law_line_is_read_back(first);
        assert forall|i: int| 0 <= i < rest.len() implies (#[trigger] rest[i]).is_shown() by {
            assert(rest[i] == all[i + 1]);
        }
        lemma_result_is_read(before + field, rest);
        assert(seq![first.shown()] + Seq::new(rest.len(), |i: int| rest[i].shown()) =~= expected);
    }
}

/// A result that was written is read back: the lines of its annotations, in their
/// order.
pub proof fn law_result_is_read_back(all: Seq<Annotation>)
    requires
        forall|i: int| 0 <= i < all.len() ==> (#[trigger] all[i]).is_shown(),
    ensures
        lines_from(result_on_wire(all), 0) == Seq::new(all.len(), |i: int| all[i].shown()),
{
    lemma_result_is_read(Seq::empty(), all);
    assert(Seq::<u8>::empty() + result_on_wire(all) =~= result_on_wire(all));
}

} // verus!
