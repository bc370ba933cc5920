use chrome_ocr::bbox::BBox;
use chrome_ocr::detector::{
    centre, collect_boxes, input_sizes, preprocess, select_outputs, suppress_detections, Cell, Content, TARGET_SIZE,
};
use chrome_ocr::gray::{Gray, MAX_GROWN_SIDE, MAX_SIDE};
use chrome_ocr::measure::Measure;
use chrome_ocr::multiline::split_multiline_region;
use chrome_ocr::recognizer::{invert_pixels, LineRecognizer, Plan};
use chrome_ocr::region::{frame_line, line_regions, Frame, LineBox};

fn ordinal(x: f32) -> i32 {
    let b = x.to_bits() as i32;
    if b < 0 {
        -(b & 0x7fff_ffff)
    } else {
        b
    }
}

fn m(x: f32) -> Measure {
    if x.is_nan() {
        None
    } else {
        Some(ordinal(x))
    }
}

fn numbered(width: u32, height: u32) -> Gray {
    let pixels: Vec<u8> = (0..width * height).map(|i| (i % 251) as u8).collect();
    Gray::from_raw(width, height, pixels).unwrap()
}

#[test]
fn raw_images_need_a_byte_for_each_pixel() {
    assert!(Gray::from_raw(2, 3, vec![0; 5]).is_none());
    assert!(Gray::from_raw(2, 3, vec![0; 7]).is_none());
    let img = Gray::from_raw(2, 3, vec![1, 2, 3, 4, 5, 6]).unwrap();
    assert_eq!((img.columns(), img.rows()), (2, 3));
    assert_eq!(img.pixel(1, 2), 6);
    assert_eq!(img.copy().as_raw(), img.as_raw());
}

#[test]
fn a_filled_image_has_one_value() {
    let img = Gray::filled(4, 3, 9);
    assert_eq!(img.as_raw(), &vec![9u8; 12]);
}

#[test]
fn a_part_has_the_pixels_of_its_place() {
    let img = numbered(7, 5);
    let part = img.part(2, 1, 3, 4);
    assert_eq!((part.columns(), part.rows()), (3, 4));
    for y in 0..4 {
        for x in 0..3 {
            assert_eq!(part.pixel(x, y), img.pixel(x + 2, y + 1));
        }
    }
    assert_eq!(img.part(7, 5, 0, 0).as_raw().len(), 0);
}

#[test]
fn an_overlay_covers_its_place_only() {
    let top = numbered(3, 2);
    let img = Gray::filled(6, 5, 200).with_overlay(&top, 2, 3);
    for y in 0..5 {
        for x in 0..6 {
            let inside = x >= 2 && x < 5 && y >= 3;
            let expected = if inside { top.pixel(x - 2, y - 3) } else { 200 };
            assert_eq!(img.pixel(x, y), expected);
        }
    }
    assert_eq!(img.part(2, 3, 3, 2).as_raw(), top.as_raw());
}

#[test]
fn scaling_gives_the_size_asked_for() {
    let img = numbered(16, 8);
    for scaled in [img.scaled(8, 4), img.scaled_sharply(8, 4)] {
        assert_eq!((scaled.columns(), scaled.rows()), (8, 4));
        assert_eq!(scaled.as_raw().len(), 32);
    }
    assert_eq!(img.scaled(16, 8).as_raw(), img.as_raw());
    assert_eq!(img.scaled_sharply(16, 8).as_raw(), img.as_raw());
    assert_eq!(Gray::filled(16, 8, 77).scaled(5, 3).as_raw(), &vec![77u8; 15]);
    assert_eq!(Gray::filled(16, 8, 77).scaled_sharply(5, 3).as_raw(), &vec![77u8; 15]);
    let step = Gray::from_raw(4, 1, vec![0, 0, 200, 200]).unwrap();
    assert_eq!(step.scaled(2, 1).as_raw(), &vec![29u8, 171]);
}

#[test]
fn scaling_has_limits() {
    let img = numbered(16, 8);
    assert!(img.can_be_scaled(4096, 4096));
    assert!(img.can_be_scaled(MAX_GROWN_SIDE, 1));
    assert!(!img.can_be_scaled(MAX_GROWN_SIDE + 1, 1));
    assert!(!img.can_be_scaled(1, MAX_GROWN_SIDE + 1));
    let row = Gray::filled(MAX_SIDE + 5, 1, 9);
    assert!(row.can_be_scaled(MAX_SIDE, 1));
    assert!(!row.can_be_scaled(MAX_SIDE + 1, 1));
    assert!(!row.can_be_scaled(MAX_SIDE + 6, 1));
    assert_eq!(row.scaled(4, 1).as_raw(), &vec![9u8; 4]);
    assert_eq!(row.scaled_sharply(4, 1).as_raw(), &vec![9u8; 4]);
    let longer = Gray::filled(0x200_0000, 1, 9);
    assert_eq!(longer.scaled(3, 1).as_raw().len(), 3);
    assert_eq!(longer.scaled_sharply(3, 1).as_raw().len(), 3);
    assert!(row.can_be_scaled(MAX_SIDE + 5, 1));
    assert_eq!(row.scaled(MAX_SIDE + 5, 1).as_raw(), row.as_raw());
    let empty = Gray::filled(0, 7, 9);
    assert!(empty.can_be_scaled(3, 2));
    assert_eq!(empty.scaled(3, 2).as_raw(), &vec![0u8; 6]);
    assert_eq!(empty.scaled_sharply(3, 2).as_raw(), &vec![0u8; 6]);
    let long = Gray::filled(MAX_SIDE, 1, 9);
    assert!(long.can_be_scaled(3, 1));
    assert_eq!(long.scaled(3, 1).as_raw(), &vec![9u8; 3]);
    let wide = Gray::filled(3, 1, 9);
    assert_eq!(wide.scaled_sharply(MAX_SIDE, 1).as_raw(), &vec![9u8; MAX_SIDE as usize]);
}

fn striped(width: u32, rows: &[bool]) -> Gray {
    let mut pixels = Vec::new();
    for &dark in rows {
        for _ in 0..width {
            pixels.push(if dark { 199u8 } else { 200 });
        }
    }
    Gray::from_raw(width, rows.len() as u32, pixels).unwrap()
}

fn rows(runs: &[(bool, usize)]) -> Vec<bool> {
    runs.iter().flat_map(|&(dark, n)| vec![dark; n]).collect()
}

#[test]
fn a_region_of_two_lines_is_split() {
    let img = striped(20, &rows(&[(false, 5), (true, 12), (false, 4), (true, 10), (false, 1)]));
    let parts = split_multiline_region(&img);
    let places: Vec<(u32, u32)> = parts.iter().map(|(part, y)| (*y, part.rows())).collect();
    assert_eq!(places, vec![(3, 16), (19, 13)]);
    assert_eq!(parts[0].0.columns(), 20);
    assert_eq!(parts[0].0.pixel(0, 2), 199);
    assert_eq!(parts[0].0.pixel(0, 1), 200);
}

#[test]
fn a_region_of_one_line_stays_whole() {
    let short = striped(20, &rows(&[(true, 12), (false, 4), (true, 13)]));
    assert_eq!(split_multiline_region(&short).len(), 1);
    let low = striped(20, &rows(&[(true, 12), (false, 20), (true, 9)]));
    let parts = split_multiline_region(&low);
    assert_eq!(parts.len(), 1);
    assert_eq!((parts[0].1, parts[0].0.rows()), (0, 41));
    assert_eq!(parts[0].0.as_raw(), low.as_raw());
}

#[test]
fn thin_rows_do_not_count_as_text() {
    let mut pixels = vec![255u8; 40 * 40];
    for y in 0..40 {
        let dark = if y < 15 || y >= 25 { 40 } else { 4 };
        for x in 0..dark {
            pixels[y * 40 + x] = 0;
        }
    }
    let img = Gray::from_raw(40, 40, pixels).unwrap();
    let parts = split_multiline_region(&img);
    let places: Vec<(u32, u32)> = parts.iter().map(|(part, y)| (*y, part.rows())).collect();
    assert_eq!(places, vec![(0, 17), (23, 17)]);
}

#[test]
fn the_projection_threshold_matches_single_precision() {
    for most in 0..20_000u32 {
        assert_eq!((most as f32 * 0.1).max(1.0) as u32, (most / 10).max(1));
    }
}

#[test]
fn frames_are_padded_within_the_image() {
    assert_eq!(frame_line(10, 50, 30, 80, 4, 1, 100, 100), Some(Frame { x1: 6, y1: 49, x2: 34, y2: 81 }));
    assert_eq!(frame_line(-5, -5, 200, 200, 4, 1, 100, 90), Some(Frame { x1: 0, y1: 0, x2: 100, y2: 90 }));
    assert_eq!(frame_line(10, 10, 12, 30, 0, 0, 100, 100), None);
    assert_eq!(frame_line(10, 10, 30, 12, 0, 0, 100, 100), None);
    assert_eq!(frame_line(10, 10, 13, 13, 0, 0, 100, 100), Some(Frame { x1: 10, y1: 10, x2: 13, y2: 13 }));
    assert_eq!(frame_line(200, 10, 300, 30, 0, 0, 100, 100), None);
}

#[test]
fn low_and_wide_frames_grow() {
    assert_eq!(frame_line(10, 50, 51, 60, 0, 0, 100, 100), Some(Frame { x1: 10, y1: 42, x2: 51, y2: 68 }));
    assert_eq!(frame_line(10, 50, 50, 60, 0, 0, 100, 100), Some(Frame { x1: 10, y1: 50, x2: 50, y2: 60 }));
    assert_eq!(frame_line(10, 50, 90, 70, 0, 0, 100, 100), Some(Frame { x1: 10, y1: 50, x2: 90, y2: 70 }));
    assert_eq!(frame_line(10, 2, 90, 12, 0, 0, 100, 15), Some(Frame { x1: 10, y1: 0, x2: 90, y2: 15 }));
}

#[test]
fn frames_cut_images() {
    let img = numbered(40, 30);
    let frame = Frame { x1: 5, y1: 6, x2: 25, y2: 20 };
    let wide = frame.padded(10, 3, 40, 30);
    assert_eq!(wide, Frame { x1: 0, y1: 3, x2: 35, y2: 23 });
    let part = frame.cut(&img);
    assert_eq!((part.columns(), part.rows()), (20, 14));
    assert_eq!(part.pixel(0, 0), img.pixel(5, 6));
    assert_eq!(frame.cut_turned(img.copy()).as_raw(), part.as_raw());
    let narrow = Frame { x1: 5, y1: 6, x2: 15, y2: 20 };
    assert_eq!(narrow.cut_turned(img.copy()).as_raw(), img.as_raw());
    let low = Frame { x1: 5, y1: 6, x2: 30, y2: 11 };
    assert_eq!(low.cut_turned(img.copy()).as_raw(), img.as_raw());
}

#[test]
fn lines_of_a_region_are_cut_and_low_ones_grown() {
    let img = striped(60, &rows(&[(false, 25), (true, 12), (false, 4), (true, 10), (false, 49)]));
    let frame = Frame { x1: 10, y1: 20, x2: 60, y2: 60 };
    let region = frame.cut(&img);
    let regions = line_regions(&img, frame, &region);
    assert_eq!(regions.len(), 2);
    assert_eq!(regions[0].place, LineBox { x: 10, y: 18, width: 50, height: 26 });
    assert_eq!((regions[0].img.columns(), regions[0].img.rows()), (50, 26));
    assert_eq!(regions[0].img.pixel(0, 7), 199);
    assert_eq!(regions[0].img.pixel(0, 6), 200);
    assert_eq!(regions[1].place, LineBox { x: 10, y: 33, width: 50, height: 26 });
    let whole = Frame { x1: 0, y1: 20, x2: 60, y2: 45 };
    let one = line_regions(&img, whole, &whole.cut(&img));
    assert_eq!(one.len(), 1);
    assert_eq!(one[0].place, LineBox { x: 0, y: 20, width: 60, height: 25 });
}

fn dims(all: &[&[usize]]) -> Vec<Vec<usize>> {
    all.iter().map(|d| d.to_vec()).collect()
}

#[test]
fn outputs_with_an_anchor_are_read() {
    let outputs = dims(&[
        &[1, 512, 512, 7],
        &[1, 10],
        &[1, 20, 20, 7],
        &[1, 21, 21, 7],
        &[1, 64, 64, 6],
        &[1, 64, 64, 7],
        &[1, 64, 64, 7],
        &[1, 64, 64, 7],
        &[1, 64, 64, 7],
    ]);
    assert_eq!(select_outputs(&outputs), vec![(0, 0), (3, 2), (5, 3), (6, 4), (7, 5)]);
    for rows in 1..64usize {
        let read = !select_outputs(&dims(&[&[1, rows, rows, 7]])).is_empty();
        assert_eq!(read, !(4096.0 / rows as f32 > 200.0));
    }
}

#[test]
fn input_sizes_are_sorted() {
    assert_eq!(input_sizes(&dims(&[&[1, 512, 512, 1], &[3], &[1, 128, 128, 1], &[1, 512]])), vec![128, 512, 512]);
}

#[test]
fn the_detector_sees_the_image_in_the_middle() {
    let small = numbered(4095, 2);
    let canvas = centre(&small);
    assert_eq!((canvas.columns(), canvas.rows()), (TARGET_SIZE, TARGET_SIZE));
    assert_eq!(canvas.pixel(0, 2047), small.pixel(0, 0));
    assert_eq!(canvas.pixel(4094, 2048), small.pixel(4094, 1));
    assert_eq!(canvas.pixel(4095, 2047), 255);
    assert_eq!(canvas.pixel(0, 2046), 255);
    let placed = preprocess(&small, 4095, 2);
    assert_eq!(placed.as_raw(), canvas.as_raw());
    let scaled = preprocess(&Gray::filled(2, 1, 10), 4096, 2048);
    assert_eq!(scaled.pixel(100, 1024), 10);
    assert_eq!(scaled.pixel(100, 3071), 10);
    assert_eq!(scaled.pixel(100, 1023), 255);
    assert_eq!(scaled.pixel(100, 3072), 255);
}

#[test]
fn margins_match_single_precision() {
    for side in 0..=4096u32 {
        assert_eq!(((4096 - side) as f32 / 2.0) as i64, ((4096 - side) / 2) as i64);
    }
}

#[test]
fn boxes_above_the_threshold_in_the_content_are_collected() {
    let confs = [0.2f32, 0.31, 0.9, 0.3, f32::NAN, 0.8];
    let content = Content { left: m(0.0), right: m(3.0), top: m(0.0), bottom: m(2.0) };
    let read = |at: usize, x: usize, y: usize| {
        assert_eq!(at, (y * 3 + x) * 7);
        Cell {
            conf: m(confs[y * 3 + x]),
            cx: m(x as f32 + 0.5),
            cy: m(y as f32),
            found: BBox::new(x as i32, y as i32, 0, 0, ordinal(confs[y * 3 + x])),
        }
    };
    let boxes = collect_boxes(2, 3, m(0.3), content, read);
    assert_eq!(boxes.len(), 1);
    assert_eq!((boxes[0].x1, boxes[0].y1), (2, 1));
    let all = Content { top: m(-1.0), ..content };
    let boxes = collect_boxes(2, 3, m(0.3), all, read);
    let places: Vec<(i32, i32)> = boxes.iter().map(|b| (b.x1, b.y1)).collect();
    assert_eq!(places, vec![(1, 0), (2, 0), (2, 1)]);
}

#[test]
fn detections_are_suppressed_by_more_confident_ones() {
    let boxes = vec![BBox::new(0, 0, 10, 10, 5), BBox::new(1, 0, 11, 10, 9), BBox::new(50, 0, 60, 10, 7)];
    let iou = |a: &BBox, b: &BBox| m(if (a.x1 - b.x1).abs() < 5 { 0.31 } else { 0.0 });
    let kept = suppress_detections(&boxes, ordinal(0.3), iou);
    assert_eq!(kept, vec![boxes[1], boxes[2]]);
    let kept = suppress_detections(&boxes, ordinal(0.31), iou);
    assert_eq!(kept, vec![boxes[1], boxes[2], boxes[0]]);
}

fn recognizer(name: &str) -> LineRecognizer {
    LineRecognizer::new_with_model(vec!["a".to_string(), "b".to_string()], &dims(&[&[1, 42, 3]]), name)
}

#[test]
fn the_model_sees_the_line_behind_its_margin() {
    let cjk = recognizer("hanijpan");
    let img = Gray::filled(64, 64, 100);
    let canvas = cjk.prepare_canvas(&img, 32);
    assert_eq!((canvas.columns(), canvas.rows()), (168, 32));
    for x in 0..168 {
        let expected = if x >= 12 && x < 44 { 100 } else { 0 };
        assert_eq!(canvas.pixel(x, 0), expected);
        assert_eq!(canvas.pixel(x, 31), expected);
    }
    let und = recognizer("gocr_mobile_und");
    let wide = und.prepare_canvas(&img, 5000);
    assert_eq!(wide.pixel(7, 5), 0);
    assert_eq!(wide.pixel(8, 5), 100);
    assert_eq!(wide.pixel(167, 5), 100);
}

#[test]
fn inverting_twice_changes_nothing() {
    let mut pixels = vec![0u8, 1, 128, 255];
    invert_pixels(&mut pixels);
    assert_eq!(pixels, vec![255, 254, 127, 0]);
    invert_pixels(&mut pixels);
    assert_eq!(pixels, vec![0, 1, 128, 255]);
}

fn chunks(r: &LineRecognizer, w: u32, h: u32) -> Option<Vec<(u32, u32)>> {
    match r.plan_line(w, h) {
        Plan::Chunks(chunks) => Some(chunks),
        _ => None,
    }
}

#[test]
fn lines_are_read_whole_or_in_chunks() {
    let r = recognizer("hanijpan");
    assert!(matches!(r.plan_line(4, 50), Plan::Nothing));
    assert!(matches!(r.plan_line(50, 4), Plan::Nothing));
    assert!(matches!(r.plan_line(4, u32::MAX), Plan::Nothing));
    assert!(matches!(r.plan_line(u32::MAX, 0), Plan::Nothing));
    assert!(matches!(r.plan_line(u32::MAX, u32::MAX), Plan::Whole));
    assert_eq!(chunks(&r, u32::MAX, 0x2000_0000).unwrap()[0], (0, 156 * 0x100_0000));
    assert!(matches!(r.plan_line(5, 5), Plan::Whole));
    assert!(matches!(r.plan_line(156, 32), Plan::Whole));
    assert_eq!(chunks(&r, 157, 32), Some(vec![(0, 156), (62, 157), (124, 157)]));
    assert_eq!(
        chunks(&r, 400, 32),
        Some(vec![(0, 156), (62, 218), (124, 280), (186, 342), (248, 400), (310, 400)])
    );
}

#[test]
fn the_plan_matches_single_precision() {
    for name in ["hanijpan", "gocr_mobile_und"] {
        let r = recognizer(name);
        let room = r.effective_width();
        for h in [5u32, 6, 7, 13, 31, 32, 33, 47, 100, 333, 1001, 9999] {
            for w in [5u32, 6, 11, 100, 157, 1000, 4095, 12_345, 77_777] {
                let ideal = (w as f32 * 32.0 / h as f32) as u32;
                if ideal <= room {
                    assert!(matches!(r.plan_line(w, h), Plan::Whole));
                    continue;
                }
                let width = (room as f32 * h as f32 / 32.0) as u32;
                let step = (width as f32 * 0.4).max(1.0) as u32;
                let mut expected = Vec::new();
                let mut x = 0u32;
                while x < w.saturating_sub(step / 2) {
                    let end = (x + width).min(w);
                    if end - x < 10 {
                        break;
                    }
                    expected.push((x, end));
                    x += step;
                }
                assert_eq!(chunks(&r, w, h), Some(expected), "{} by {}", w, h);
            }
        }
    }
}

#[test]
fn chunk_steps_match_single_precision() {
    for width in 0..200_000u32 {
        assert_eq!((width as f32 * 0.4).max(1.0) as u32, (2 * width / 5).max(1));
    }
}
