use chrome_ocr::beam::{search_beams, LEAST_PROBABILITY};
use chrome_ocr::decode::{winning_symbols, LOWEST};
use chrome_ocr::detector::DETECTION_THRESHOLD;
use chrome_ocr::frames::{
    append_frames, calculate_chunk_lengths, chunk_scores, merge_chunk_logits, merge_chunk_logits_by_boundary,
    trimmed_scores,
};
use chrome_ocr::measure::{EIGHTH_TURN, THREE_DEGREES, TWENTIETH};
use chrome_ocr::recognizer::LineRecognizer;

fn ordinal(x: f32) -> i32 {
    let b = x.to_bits() as i32;
    if b < 0 {
        -(b & 0x7fff_ffff)
    } else {
        b
    }
}

fn vocab(symbols: &[&str]) -> Vec<String> {
    symbols.iter().map(|s| s.to_string()).collect()
}

#[test]
fn the_first_output_with_scores_shapes_the_recognizer() {
    let outputs = vec![vec![1, 5], vec![1, 10, 3], vec![1, 20, 9], vec![1, 30, 9]];
    let r = LineRecognizer::new_with_model(vocab(&["a", "b", "c"]), &outputs, "gocr_mobile_und");
    assert_eq!((r.output_idx, r.time_steps, r.vocab_size, r.blank_idx, r.left_margin), (2, 20, 9, 8, 8));
    assert_eq!(r.effective_width(), 160);
    assert_eq!(r.char_conf_threshold(), 0);
    assert!(!r.uses_beam_search());
    assert_eq!(r.model_name, "gocr_mobile_und");
}

#[test]
fn without_scores_the_recognizer_has_its_defaults() {
    let r = LineRecognizer::new(vocab(&["a", "b", "c"]), &vec![vec![1, 10, 3]]);
    assert_eq!((r.output_idx, r.time_steps, r.vocab_size, r.blank_idx, r.left_margin), (0, 42, 4, 3, 12));
    assert_eq!(r.effective_width(), 156);
    assert_eq!(r.char_conf_threshold(), ordinal(0.15));
    assert!(r.uses_beam_search());
    assert_eq!(r.model_name, "hanijpan");
    let other = LineRecognizer::new_with_model(vocab(&["a"]), &Vec::new(), "latin");
    assert_eq!(other.left_margin, 12);
    assert!(!other.uses_beam_search());
}

#[test]
fn the_first_best_symbol_wins() {
    assert_eq!(LOWEST, ordinal(f32::NEG_INFINITY));
    let scores: Vec<i32> = [1.0f32, 3.0, 3.0, -1.0, -2.0, -3.0, 0.5].iter().map(|&x| ordinal(x)).collect();
    assert_eq!(winning_symbols(&scores, 3), vec![1, 0]);
    let nothing = vec![LOWEST; 3];
    assert_eq!(winning_symbols(&nothing, 3), vec![0]);
}

fn greedy(symbols: &[usize], confs: &[f32]) -> (String, Vec<usize>) {
    let r = LineRecognizer::new(vocab(&["a", "b", ""]), &vec![vec![1, 4, 5]]);
    let mut scores = Vec::new();
    for &s in symbols {
        for i in 0..5 {
            scores.push(ordinal(if i == s { 2.0 } else { -2.0 }));
        }
    }
    let confs: Vec<i32> = confs.iter().map(|&c| ordinal(c)).collect();
    r.ctc_decode_logits(&scores, &confs)
}

#[test]
fn held_and_blank_frames_add_nothing() {
    let (text, frames) = greedy(&[0, 0, 4, 0, 1, 1, 4], &[0.9; 7]);
    assert_eq!(text, "aab");
    assert_eq!(frames, vec![0, 3, 4]);
    assert_eq!(greedy(&[], &[]), (String::new(), Vec::new()));
}

#[test]
fn weak_unknown_and_empty_symbols_are_dropped() {
    let (text, frames) = greedy(&[0, 1, 2, 3, 1], &[0.15, 0.14, 0.9, 0.9, 0.9]);
    assert_eq!(text, "ab");
    assert_eq!(frames, vec![0, 4]);
    let (text, _) = greedy(&[0, 0], &[0.1, 0.9]);
    assert_eq!(text, "");
}

#[test]
fn prefixes_are_spelled() {
    let r = LineRecognizer::new(vocab(&["he", "l", "o"]), &Vec::new());
    assert_eq!(r.spell(&vec![0, 1, 1, 9, 2]), "hello");
    assert_eq!(r.spell(&Vec::new()), "");
}

#[test]
fn characters_are_read_with_their_places() {
    let r = LineRecognizer::new(vocab(&["a", "b"]), &Vec::new());
    let mut scores = Vec::new();
    for s in [0usize, 2, 1] {
        for i in 0..3 {
            scores.push(ordinal(if i == s { 1.0 } else { 0.0 }));
        }
    }
    let confs = vec![ordinal(0.5), ordinal(0.6), ordinal(0.7)];
    let read = r.recognize_segment_with_positions(&scores, &confs, &vec![(0, 4), (4, 8), (8, 12)], 100);
    assert_eq!(read.len(), 2);
    assert_eq!((read[0].text.as_str(), read[0].x0, read[0].x1, read[0].time_step), ("a", 100, 104, 0));
    assert_eq!((read[1].text.as_str(), read[1].x0, read[1].x1, read[1].time_step), ("b", 108, 112, 2));
    assert_eq!(read[1].conf, ordinal(0.7));
}

#[test]
fn frames_show_columns_of_their_chunk() {
    let r = LineRecognizer::new(vocab(&["a", "b"]), &Vec::new());
    assert_eq!(r.left_margin, 12);
    assert_eq!(r.frame_span(0, 156, 156), (0, 0));
    assert_eq!(r.frame_span(2, 156, 156), (0, 0));
    assert_eq!(r.frame_span(3, 156, 156), (0, 4));
    assert_eq!(r.frame_span(41, 156, 156), (152, 156));
    assert_eq!(r.frame_span(42, 156, 156), (156, 156));
    assert_eq!(r.frame_span(5, 10, 25), (20, 25));
    assert_eq!(r.frame_span(6, 19, 95), (60, 80));
    assert_eq!(r.frame_span(999, 10, u32::MAX), (u32::MAX, u32::MAX));
    for (new_w, w) in [(1u32, 9u32), (19, 95), (100, 1234), (156, 400), (156, 100)] {
        let mut last = 0;
        for t in 0..50usize {
            let span = r.frame_span(t, new_w, w);
            assert_eq!(span.0, last);
            last = span.1;
            let content = |t: usize| (t as f32 * 4.0 - 12.0).max(0.0).min(new_w as f32);
            for (x, t) in [(span.0, t), (span.1, t + 1)] {
                let measured = content(t) / new_w as f32 * w as f32;
                assert!((x as f32 - measured.floor()).abs() <= 1.0 && x as f32 <= measured + 0.001);
            }
        }
        assert_eq!(last, w);
    }
}

#[test]
fn frames_are_read_at_their_columns() {
    let r = LineRecognizer::new(vocab(&["a", "b"]), &Vec::new());
    let mut scores = Vec::new();
    for s in [2usize, 2, 2, 0, 1] {
        for i in 0..3 {
            scores.push(ordinal(if i == s { 1.0 } else { 0.0 }));
        }
    }
    let spans: Vec<(u32, u32)> = (0..5).map(|t| r.frame_span(t, 8, 16)).collect();
    let read = r.recognize_segment_with_positions(&scores, &vec![ordinal(0.9); 5], &spans, 50);
    let places: Vec<(&str, u32, u32)> = read.iter().map(|c| (c.text.as_str(), c.x0, c.x1)).collect();
    assert_eq!(places, vec![("a", 50, 58), ("b", 58, 66)]);
}

#[test]
fn limits_are_those_of_single_precision() {
    assert_eq!(LEAST_PROBABILITY, ordinal(0.001));
    assert_eq!(DETECTION_THRESHOLD, ordinal(0.3));
    assert_eq!(THREE_DEGREES, ordinal(3.0f32.to_radians()));
    assert_eq!(EIGHTH_TURN, ordinal(std::f32::consts::FRAC_PI_4));
    assert_eq!(TWENTIETH, ordinal(0.05));
}

#[test]
fn chunks_give_the_frames_of_the_line() {
    assert_eq!(calculate_chunk_lengths(&vec![], 42), Vec::<usize>::new());
    assert_eq!(calculate_chunk_lengths(&vec![(0, 90)], 42), vec![42]);
    let lengths = calculate_chunk_lengths(&vec![(0, 100), (40, 140), (80, 180)], 42);
    assert_eq!(lengths, vec![29, 16, 31]);
    assert_eq!(lengths.iter().sum::<usize>(), 76);
    assert_eq!(calculate_chunk_lengths(&vec![(0, 156), (62, 157), (124, 157)], 42), vec![29, 13, 0]);
    assert_eq!(calculate_chunk_lengths(&vec![(0, 100), (40, 110)], 10), vec![7, 4]);
}

#[test]
fn the_lengths_of_chunks_add_up() {
    for width in [1u32, 3, 10, 99, 156] {
        for count in 2..9u32 {
            for time_steps in [1usize, 7, 20, 42] {
                let step = (2 * width / 5).max(1);
                let bounds: Vec<(u32, u32)> = (0..count).map(|i| (i * step, i * step + width)).collect();
                let end = (count - 1) * step + width;
                let total = (end as f64 * time_steps as f64 / width as f64).round() as usize;
                let lengths = calculate_chunk_lengths(&bounds, time_steps);
                assert_eq!(lengths.len(), count as usize);
                assert_eq!(lengths.iter().sum::<usize>(), total);
            }
        }
    }
}

#[test]
fn shares_match_single_precision() {
    for time_steps in 0..2000usize {
        let t = time_steps as f32;
        let middle = calculate_chunk_lengths(&vec![(0, 1), (1, 2), (2, 9)], time_steps);
        assert_eq!(middle[0], (t * 0.7).floor() as usize, "{}", time_steps);
        assert_eq!(middle[1], (t * 0.4).floor() as usize, "{}", time_steps);
        assert_eq!((6 * time_steps + 10) / 20, (t * 0.3).round() as usize, "{}", time_steps);
    }
}

#[test]
fn chunks_are_put_together_by_their_shares() {
    let chunk = |c: usize| -> Vec<usize> { (0..10).flat_map(|t| vec![100 * c + t; 2]).collect() };
    let bounds = vec![(0, 100), (40, 140), (80, 180)];
    let out = merge_chunk_logits_by_boundary(&vec![chunk(0), chunk(1), chunk(2)], &bounds, 2, 10);
    let frames: Vec<usize> = out.chunks(2).map(|f| f[0]).collect();
    let mut expected: Vec<usize> = (0..7).collect();
    expected.extend(103..107);
    expected.extend(203..210);
    assert_eq!(frames, expected);
    assert_eq!(merge_chunk_logits_by_boundary(&vec![chunk(5)], &vec![(0, 33)], 2, 10), chunk(5));
    assert_eq!(merge_chunk_logits_by_boundary(&Vec::<Vec<usize>>::new(), &vec![], 2, 10), Vec::<usize>::new());
}

#[test]
fn borders_are_cut_where_chunks_meet() {
    let chunk = |c: usize| -> Vec<usize> { (0..10).flat_map(|t| vec![100 * c + t; 2]).collect() };
    let out = merge_chunk_logits(&vec![chunk(0), chunk(1), chunk(2)], 2, 10, 3);
    let frames: Vec<usize> = out.chunks(2).map(|f| f[1]).collect();
    let mut expected: Vec<usize> = (0..7).collect();
    expected.extend(103..107);
    expected.extend(203..210);
    assert_eq!(frames, expected);
    assert_eq!(merge_chunk_logits(&vec![chunk(4)], 2, 10, 3), chunk(4));
    assert_eq!(merge_chunk_logits(&vec![vec![1, 2, 3]], 2, 10, 30), vec![1, 2, 3]);
    let mut longer = chunk(0);
    longer.extend(vec![7; 5]);
    assert_eq!(merge_chunk_logits(&vec![longer, chunk(1), chunk(2)], 2, 10, 3), out);
}

#[test]
fn missing_frames_are_left_out() {
    let mut out = vec![9];
    append_frames(&mut out, &vec![1, 2, 3, 4, 5], 2, 0, 4);
    assert_eq!(out, vec![9, 1, 2, 3, 4]);
}

#[test]
fn frames_outside_the_content_are_blank() {
    let raw: Vec<u8> = (0..12).collect();
    let scores = chunk_scores(&raw, 3, 4, 2, 1, 3, |b| b as i32 * 10, 777, -777);
    assert_eq!(scores, vec![-777, -777, 777, 30, 40, 50, 60, 70, 80, -777, -777, 777]);
    let short: Vec<u8> = (0..9).collect();
    assert_eq!(chunk_scores(&short, 3, 4, 2, 1, 3, |b| b as i32 * 10, 777, -777), scores);
    let none = chunk_scores(&Vec::new(), 3, 2, 2, 2, 2, |b| b as i32, 777, -777);
    assert_eq!(none, vec![-777, -777, 777, -777, -777, 777]);
}

#[test]
fn trimmed_frames_are_converted() {
    let raw: Vec<u8> = (0..12).collect();
    assert_eq!(trimmed_scores(&raw, 3, 4, 1, 3, |b| b as i32 + 1), vec![4, 5, 6, 7, 8, 9]);
    assert_eq!(trimmed_scores(&raw, 3, 4, 3, 99, |b| b as i32), vec![9, 10, 11]);
    assert_eq!(trimmed_scores(&raw, 3, 4, 4, 4, |b| b as i32), Vec::<i32>::new());
}

fn log_add(a: f64, b: f64) -> f64 {
    if a == f64::NEG_INFINITY {
        return b;
    }
    if b == f64::NEG_INFINITY {
        return a;
    }
    let max = a.max(b);
    max + ((a - max).exp() + (b - max).exp()).ln()
}

fn rank(score: f64) -> i64 {
    let bits = score.to_bits() as i64;
    let ordinal = if bits < 0 { -(bits & i64::MAX) } else { bits };
    -ordinal
}

fn best_prefix(frames: &[Vec<f64>], blank: usize) -> (Vec<usize>, f64) {
    let logs: Vec<Vec<f64>> = frames.iter().map(|f| f.iter().map(|p| p.ln()).collect()).collect();
    let limit = rank((0.001f32 as f64).ln());
    let beams = search_beams(&logs, blank, limit, f64::NEG_INFINITY, 0.0, log_add, |a, b| a + b, rank);
    (beams[0].prefix.clone(), log_add(beams[0].blank, beams[0].other).exp())
}

#[test]
fn paths_of_one_prefix_are_added_up() {
    let frames = vec![vec![0.4, 0.0, 0.6], vec![0.4, 0.0, 0.6]];
    let (prefix, p) = best_prefix(&frames, 2);
    assert_eq!(prefix, vec![0]);
    assert!((p - 0.64).abs() < 1e-9);
}

#[test]
fn a_blank_parts_equal_symbols() {
    let frames = vec![vec![0.9, 0.05, 0.05], vec![0.05, 0.05, 0.9], vec![0.9, 0.05, 0.05]];
    assert_eq!(best_prefix(&frames, 2).0, vec![0, 0]);
    let held = vec![vec![0.9, 0.05, 0.05], vec![0.9, 0.05, 0.05], vec![0.05, 0.9, 0.05]];
    assert_eq!(best_prefix(&held, 2).0, vec![0, 1]);
    assert_eq!(best_prefix(&[], 2).0, Vec::<usize>::new());
}

#[test]
fn unlikely_symbols_are_not_tried() {
    let logs = vec![vec![0.0009f64.ln(), 0.9991f64.ln()]];
    let limit = rank((0.001f32 as f64).ln());
    let beams = search_beams(&logs, 1, limit, f64::NEG_INFINITY, 0.0, log_add, |a, b| a + b, rank);
    assert_eq!(beams.len(), 1);
    assert_eq!(beams[0].prefix, Vec::<usize>::new());
}

#[test]
fn beams_are_few_and_best_first() {
    let frame: Vec<f64> = (0..60).map(|i| ((i + 1) as f64 / 1830.0).ln()).collect();
    let limit = rank((0.001f32 as f64).ln());
    let beams = search_beams(&vec![frame.clone(), frame], 59, limit, f64::NEG_INFINITY, 0.0, log_add, |a, b| a + b, rank);
    assert_eq!(beams.len(), 25);
    let totals: Vec<f64> = beams.iter().map(|b| log_add(b.blank, b.other)).collect();
    assert!(totals.windows(2).all(|w| w[0] >= w[1]));
    for i in 0..beams.len() {
        for j in 0..i {
            assert_ne!(beams[i].prefix, beams[j].prefix);
        }
    }
}
