use chrome_ocr::bbox::BBox;
use chrome_ocr::features::{is_same_line, prepare_features};
use chrome_ocr::measure::Measure;
use chrome_ocr::region::{is_duplicate, remove_overlaps, LineBox};
use chrome_ocr::rules::Overlap;
use chrome_ocr::session::{Reading, Session};
use chrome_ocr::sorter::LayoutSorter;
use chrome_ocr::version::{begins_with_digit, latest_version, parse_version};
use chrome_ocr::vocab::{build_vocab, vocab_from_json, vocab_from_lines, VocabError};

fn ordinal(x: f32) -> i32 {
    let b = x.to_bits() as i32;
    if b < 0 {
        -(b & 0x7fff_ffff)
    } else {
        b
    }
}

fn m(x: f32) -> Measure {
    if x.is_nan() {
        None
    } else {
        Some(ordinal(x))
    }
}

fn strings(parts: &[&str]) -> Vec<String> {
    parts.iter().map(|s| s.to_string()).collect()
}

#[test]
fn a_character_map_is_laid_out_by_index() {
    let vocab = vocab_from_json("{\"0\": \"a\", \"3\": \"字\", \"x\": \"no\", \"-1\": \"no\"}");
    assert_eq!(vocab.ok(), Some(strings(&["a", "", "", "字"])));
    assert_eq!(vocab_from_json("{}").ok(), Some(strings(&[""])));
    assert_eq!(vocab_from_json("{\"+2\": \"b\", \"01\": \"c\"}").ok(), Some(strings(&["", "c", "b"])));
    assert_eq!(vocab_from_json("{\"0\": \"\\u4e2d\\n\"}").ok(), Some(strings(&["中\n"])));
}

#[test]
fn malformed_maps_are_refused() {
    for content in ["", "[]", "{\"0\": 1}", "{\"0\": \"a\"", "{\"0\": \"a\"} x"] {
        assert!(matches!(vocab_from_json(content), Err(VocabError::Malformed(_))), "{}", content);
    }
    assert!(matches!(vocab_from_json("{\"18446744073709551615\": \"a\"}"), Err(VocabError::TooLarge)));
}

#[test]
fn entries_make_a_vocabulary() {
    let entries: Vec<(String, String)> =
        [("2", "c"), ("0", "a"), ("zwei", "no")].iter().map(|(k, v)| (k.to_string(), v.to_string())).collect();
    assert_eq!(build_vocab(&entries), strings(&["a", "", "c"]));
}

#[test]
fn a_list_has_a_symbol_in_each_line() {
    for content in ["", "a", "a\n", "a\nb", "a\r\nb\r\n", "\n\n", "a\n\nb", "a\rb\n", "a\r", "\r\n", "x\ny\r"] {
        let expected: Vec<String> = content.lines().map(|s| s.to_string()).collect();
        assert_eq!(vocab_from_lines(content), expected, "{:?}", content);
    }
}

#[test]
fn versions_are_read_part_by_part() {
    assert_eq!(parse_version("140.14"), vec![140, 14]);
    assert_eq!(parse_version("1.x.3"), vec![1, 3]);
    assert_eq!(parse_version("1..2"), vec![1, 2]);
    assert_eq!(parse_version("-5.+7"), vec![-5, 7]);
    assert_eq!(parse_version("2147483647.2147483648.-2147483648"), vec![i32::MAX, i32::MIN]);
    assert_eq!(parse_version(""), Vec::<i32>::new());
    for part in ["007", "-0", "+", "-", "1 ", "99999999999", "-2147483649", "１", "0x1"] {
        let expected: Vec<i32> = part.parse().ok().into_iter().collect();
        assert_eq!(parse_version(part), expected, "{}", part);
    }
}

#[test]
fn the_latest_version_is_found() {
    assert_eq!(latest_version(&strings(&["9.9", "140.14", "140.2", "readme"])), Some(1));
    assert_eq!(latest_version(&strings(&["1.0", "1.0.0"])), Some(1));
    assert_eq!(latest_version(&strings(&["1.0", "1.0"])), Some(0));
    assert_eq!(latest_version(&strings(&["v9", "x"])), None);
    assert_eq!(latest_version(&Vec::new()), None);
    assert!(begins_with_digit("1.0") && !begins_with_digit("v1") && !begins_with_digit("") && !begins_with_digit("１"));
}

fn centred(x: f32, y: f32) -> BBox {
    BBox::new(ordinal(x - 10.0), ordinal(y - 5.0), ordinal(x + 10.0), ordinal(y + 5.0), 0)
}

#[test]
fn lines_are_sorted_by_rows() {
    let places = [(0.5f32, 0.12f32), (0.9, 0.1), (0.1, 0.5), (0.2, 0.13), (0.3, 0.155)];
    let boxes: Vec<BBox> = places.iter().map(|&(x, y)| centred(x, y)).collect();
    let x: Vec<i32> = places.iter().map(|p| ordinal(p.0)).collect();
    let y: Vec<i32> = places.iter().map(|p| ordinal(p.1)).collect();
    let sorter = LayoutSorter::new("models").unwrap();
    let sorted = sorter.sort(&boxes, &x, &y, |i, j| m((places[i].1 - places[j].1).abs()));
    assert_eq!(sorted, vec![boxes[3], boxes[4], boxes[0], boxes[1], boxes[2]]);
    assert_eq!(sorter.sort(&Vec::new(), &Vec::new(), &Vec::new(), |_, _| None).len(), 0);
}

#[test]
fn a_gap_of_a_row_starts_a_new_one() {
    let places = [(0.9f32, 0.0f32), (0.1, 0.03)];
    let boxes: Vec<BBox> = places.iter().map(|&(x, y)| centred(x, y)).collect();
    let x: Vec<i32> = places.iter().map(|p| ordinal(p.0)).collect();
    let y: Vec<i32> = places.iter().map(|p| ordinal(p.1)).collect();
    let sorter = LayoutSorter::new("models").unwrap();
    let sorted = sorter.sort(&boxes, &x, &y, |i, j| m((places[i].1 - places[j].1).abs()));
    assert_eq!(sorted, boxes);
}

#[test]
fn simple_sorting_goes_by_height_first() {
    let places = [(5.0f32, 2.0f32), (9.0, -1.0), (1.0, 2.0), (-3.0, 7.0)];
    let boxes: Vec<BBox> = places.iter().map(|&(x, y)| centred(x, y)).collect();
    let x: Vec<i32> = places.iter().map(|p| ordinal(p.0)).collect();
    let y: Vec<i32> = places.iter().map(|p| ordinal(p.1)).collect();
    let sorted = LayoutSorter::sort_simple(&boxes, &x, &y);
    assert_eq!(sorted, vec![boxes[1], boxes[2], boxes[0], boxes[3]]);
}

#[test]
fn features_come_in_turn() {
    assert_eq!(prepare_features(&vec![1, 2, 3], &vec![7, 8, 9]), vec![1, 7, 2, 8, 3, 9]);
    assert!(is_same_line(m(0.49)));
    assert!(!is_same_line(m(0.5)));
    assert!(!is_same_line(m(f32::NAN)));
}

fn overlap(a: &LineBox, b: &LineBox) -> Overlap {
    let edges = |l: &LineBox| [l.x as f32, l.y as f32, (l.x + l.width as i64) as f32, (l.y + l.height as i64) as f32];
    let (p, q) = (edges(a), edges(b));
    let across = (p[2].min(q[2]) - p[0].max(q[0])).max(0.0);
    let down = (p[3].min(q[3]) - p[1].max(q[1])).max(0.0);
    let (w1, h1, w2, h2) = (p[2] - p[0], p[3] - p[1], q[2] - q[0], q[3] - q[1]);
    let common = across * down;
    let span = p[2].max(q[2]) - p[0].min(q[0]);
    Overlap {
        iou: m(common / (w1 * h1 + w2 * h2 - common + 1e-6)),
        first_in_second: m(common / (w1 * h1 + 1e-6)),
        second_in_first: m(common / (w2 * h2 + 1e-6)),
        breadth_ratio: m(w1.min(w2) / w1.max(w2)),
        row_overlap: m(down / h1.min(h2)),
        column_overlap: m(across / w1.min(w2)),
        breadth_overlap: m((w1 + w2 - span) / span),
        depth_gap: m(0.0),
    }
}

fn line(x: i64, y: i64, width: u32, height: u32) -> LineBox {
    LineBox { x, y, width, height }
}

#[test]
fn a_region_over_a_known_line_is_a_duplicate() {
    let seen = vec![line(0, 0, 100, 20), line(0, 40, 100, 20)];
    assert!(is_duplicate(&seen, &line(2, 41, 100, 20), overlap));
    assert!(!is_duplicate(&seen, &line(0, 80, 100, 20), overlap));
    assert!(!is_duplicate(&seen, &line(0, 52, 100, 20), overlap));
    assert!(!is_duplicate(&Vec::new(), &line(0, 0, 100, 20), overlap));
}

#[test]
fn weaker_lines_are_removed() {
    let lines = vec![line(0, 0, 100, 20), line(0, 60, 90, 20), line(3, 2, 100, 20), line(70, 3, 20, 15)];
    let scores = vec![5, 1, 9, 2];
    let left = remove_overlaps(strings(&["weak", "alone", "strong", "fragment"]), &lines, &scores, overlap);
    assert_eq!(left, strings(&["alone", "strong"]));
}

fn reading(text: &str, conf: f32) -> Reading {
    Reading { text: text.to_string(), conf: m(conf) }
}

#[test]
fn a_session_records_what_is_text() {
    let mut session = Session::new();
    let least = m(0.3);
    let first = line(0, 0, 100, 20);
    assert!(session.wants(&first, overlap));
    assert!(session.record(first, &reading("|学习兴趣", 0.8), &None, least));
    assert!(!session.wants(&line(1, 1, 100, 20), overlap));
    assert!(!session.record(line(0, 40, 50, 20), &reading("哈哈哈哈", 0.9), &None, least));
    assert!(!session.record(line(0, 40, 50, 20), &reading("学习", 0.2), &None, least));
    let und = Some(reading("hello world", 0.6));
    assert!(session.record(line(0, 80, 100, 20), &reading("helloworld", 0.9), &und, least));
    assert_eq!(session.texts, strings(&["学习兴趣", "hello world"]));
    assert_eq!(session.confs, vec![m(0.8), m(0.6)]);
    assert_eq!(session.lines, vec![line(0, 0, 100, 20), line(0, 80, 100, 20)]);
    assert_eq!(session.finish(&vec![1, 2], overlap), strings(&["学习兴趣", "hello world"]));
}

#[test]
fn a_finished_session_has_no_overlaps() {
    let mut session = Session::new();
    let least = m(0.0);
    assert!(session.record(line(0, 0, 100, 20), &reading("first", 0.5), &None, least));
    assert!(session.record(line(0, 7, 100, 20), &reading("second", 0.9), &None, least));
    assert_eq!(session.finish(&vec![10, 18], overlap), strings(&["second"]));
}

#[test]
fn the_best_line_is_always_left() {
    let lines = vec![line(0, 0, 100, 20), line(0, 2, 100, 20), line(0, 4, 100, 20)];
    for best in 0..3 {
        let mut scores = vec![1; 3];
        scores[best] = 2;
        let left = remove_overlaps(strings(&["0", "1", "2"]), &lines, &scores, overlap);
        assert_eq!(left, vec![best.to_string()]);
    }
    assert_eq!(remove_overlaps(strings(&["0", "1", "2"]), &lines, &vec![5, 5, 5], overlap), strings(&["0"]));
}

#[test]
fn wanted_lines_are_all_new() {
    let mut session = Session::new();
    for y in [0i64, 3, 30, 31, 60, 28] {
        let place = line(0, y, 100, 20);
        if session.wants(&place, overlap) {
            assert!(session.record(place, &reading("some text", 0.9), &None, m(0.3)));
        }
    }
    let rows: Vec<i64> = session.lines.iter().map(|l| l.y).collect();
    assert_eq!(rows, vec![0, 30, 60]);
}
