use chrome_ocr::annotation::{decode_line_annotation, decode_ocr_result, decode_word_annotation, gray_to_bgra};
use chrome_ocr::capture::{flush_final_captures, CaptureQueue, ITEM_PIXELS};
use chrome_ocr::decimal::write_padded;
use chrome_ocr::wire::ProtobufReader;

fn varint(mut n: u64) -> Vec<u8> {
    let mut out = Vec::new();
    loop {
        let low = (n & 0x7f) as u8;
        n >>= 7;
        if n == 0 {
            out.push(low);
            return out;
        }
        out.push(low | 0x80);
    }
}

fn field(number: u64, bytes: &[u8]) -> Vec<u8> {
    let mut out = varint(number << 3 | 2);
    out.extend(varint(bytes.len() as u64));
    out.extend(bytes);
    out
}

fn float(number: u64, value: f32) -> Vec<u8> {
    let mut out = varint(number << 3 | 5);
    out.extend(value.to_le_bytes());
    out
}

#[test]
fn varints_are_read_back() {
    for n in [0u64, 1, 127, 128, 300, 16_384, u32::MAX as u64, 1 << 62, u64::MAX] {
        let mut bytes = varint(n);
        bytes.push(0xaa);
        let mut reader = ProtobufReader::new(&bytes);
        assert_eq!(reader.read_varint(), Some(n));
        assert_eq!(reader.read_byte(), Some(0xaa));
        assert_eq!(reader.read_byte(), None);
    }
}

#[test]
fn broken_varints_are_refused() {
    let mut reader = ProtobufReader::new(&[0x80, 0x80]);
    assert_eq!(reader.read_varint(), None);
    assert_eq!(reader.remaining(), 0);
    let long = [0xff; 12];
    let mut reader = ProtobufReader::new(&long);
    assert_eq!(reader.read_varint(), None);
    assert_eq!(reader.remaining(), 2);
}

#[test]
fn tags_and_bytes_are_read() {
    let bytes = [0x12, 0x03, 7, 8, 9, 1];
    let mut reader = ProtobufReader::new(&bytes);
    assert_eq!(reader.read_tag(), Some((2, 2)));
    assert_eq!(reader.read_varint(), Some(3));
    assert_eq!(reader.read_bytes(5), None);
    assert_eq!(reader.read_bytes(3), Some(&[7u8, 8, 9][..]));
    reader.skip(100);
    assert_eq!(reader.remaining(), 0);
    assert_eq!(reader.read_bytes(0), Some(&[][..]));
    assert_eq!(reader.read_bytes(u64::MAX), None);
    assert_eq!(reader.read_tag(), None);
}

#[test]
fn words_carry_text() {
    let mut word = field(1, b"x");
    word.extend(varint(5 << 3));
    word.extend(varint(900));
    word.extend(float(7, 1.0));
    word.extend(field(2, "词".as_bytes()));
    assert_eq!(decode_word_annotation(&word), Some("词".to_string()));
    word.extend(field(2, "后".as_bytes()));
    assert_eq!(decode_word_annotation(&word), Some("后".to_string()));
    word.extend(field(2, &[0xff, 0xfe]));
    assert_eq!(decode_word_annotation(&word), Some("后".to_string()));
    assert_eq!(decode_word_annotation(&field(2, b"")), None);
    assert_eq!(decode_word_annotation(&[]), None);
}

#[test]
fn lines_carry_text_or_words() {
    let mut line = field(1, &field(2, b"foo"));
    line.extend(field(1, &field(2, b"bar")));
    line.extend(float(4, 0.75));
    let found = decode_line_annotation(&line).unwrap();
    assert_eq!(found.text, "foobar");
    assert_eq!(found.confidence, 0.75f32.to_bits());
    assert!(found.bounding_box.is_none());
    line.extend(field(3, "整行".as_bytes()));
    assert_eq!(decode_line_annotation(&line).unwrap().text, "整行");
    line.extend(field(2, b"bad\n"));
    assert_eq!(decode_line_annotation(&line).unwrap().text, "整行");
    line.extend(float(9, 0.1));
    line.extend(float(3, 0.5));
    assert_eq!(decode_line_annotation(&line).unwrap().confidence, 0.5f32.to_bits());
}

#[test]
fn broken_lines_are_refused() {
    assert!(decode_line_annotation(&[]).is_none());
    assert!(decode_line_annotation(&float(3, 0.5)).is_none());
    let mut cut = field(2, b"text");
    cut.extend([0x12, 0x09, 1]);
    assert!(decode_line_annotation(&cut).is_none());
    let mut group = field(2, b"text");
    group.push(0x0b);
    group.extend(field(2, b"more"));
    assert_eq!(decode_line_annotation(&group).unwrap().text, "text");
    let mut short = field(2, b"text");
    short.extend([0x1d, 1, 2]);
    let found = decode_line_annotation(&short).unwrap();
    assert_eq!((found.text.as_str(), found.confidence), ("text", 0));
}

#[test]
fn results_list_their_lines() {
    let mut result = varint(1 << 3);
    result.extend(varint(77));
    result.extend(field(2, &field(2, b"one")));
    result.extend(field(3, &field(2, b"other")));
    result.extend(field(2, b""));
    result.extend(field(2, &field(3, b"two")));
    let lines = decode_ocr_result(&result);
    let texts: Vec<&str> = lines.iter().map(|l| l.text.as_str()).collect();
    assert_eq!(texts, vec!["one", "two"]);
    assert_eq!(lines[0].confidence, 0);
    assert_eq!(decode_ocr_result(&[]).len(), 0);
    assert_eq!(decode_ocr_result(&[0x0f, 1, 2]).len(), 0);
}

#[test]
fn gray_becomes_opaque_colour() {
    assert_eq!(gray_to_bgra(&vec![1, 200]), vec![1, 1, 1, 255, 200, 200, 200, 255]);
    assert_eq!(gray_to_bgra(&Vec::new()), Vec::<u8>::new());
}

fn padded(n: u64, width: usize) -> String {
    let mut out = Vec::new();
    write_padded(&mut out, n, width);
    out.into_iter().collect()
}

#[test]
fn numbers_are_padded_with_zeros() {
    for (n, width) in [(0u64, 5usize), (42, 5), (99_999, 5), (123_456, 5), (7, 2), (u64::MAX, 2), (0, 0)] {
        assert_eq!(padded(n, width), format!("{:0width$}", n, width = width));
    }
}

#[test]
fn only_the_recognition_input_is_registered() {
    let mut queue = CaptureQueue::new();
    queue.check_and_register(&vec![2, 32, 168, 1], Some(5), 9);
    queue.check_and_register(&vec![2, 32, 168, 3], Some(5), 9);
    queue.check_and_register(&vec![2, 32, 167, 1], Some(5), 9);
    queue.check_and_register(&vec![2, 31, 168, 1], Some(5), 9);
    queue.check_and_register(&vec![32, 168, 1], Some(5), 9);
    assert_eq!(queue.pending.len(), 1);
    assert_eq!((queue.pending[0].batch, queue.pending[0].buffer, queue.pending[0].byte_size), (2, Some(5), 9));
}

#[test]
fn complete_captures_are_flushed_once() {
    let mut queue = CaptureQueue::new();
    queue.check_and_register(&vec![2, 32, 168, 1], Some(11), 2 * ITEM_PIXELS);
    queue.check_and_register(&vec![2, 32, 168, 1], Some(12), 2 * ITEM_PIXELS - 1);
    queue.check_and_register(&vec![1, 32, 168, 1], None, ITEM_PIXELS);
    queue.check_and_register(&vec![-1, 32, 168, 1], Some(13), ITEM_PIXELS);
    queue.check_and_register(&vec![1, 32, 168, 1], Some(14), ITEM_PIXELS + 5);
    let files = flush_final_captures(&mut queue);
    let plan: Vec<(usize, usize, &str)> = files.iter().map(|f| (f.buffer, f.offset, f.name.as_str())).collect();
    assert_eq!(
        plan,
        vec![
            (11, 0, "rec_input_00000_00.png"),
            (11, ITEM_PIXELS, "rec_input_00000_01.png"),
            (14, 0, "rec_input_00001_00.png"),
        ]
    );
    assert_eq!(queue.counter, 2);
    assert_eq!(flush_final_captures(&mut queue).len(), 0);
    assert_eq!(queue.counter, 2);
    queue.check_and_register(&vec![0, 32, 168, 1], Some(15), 0);
    assert_eq!(flush_final_captures(&mut queue).len(), 0);
    assert_eq!(queue.counter, 3);
}
