use chrome_ocr::bbox::{greater_of, lesser_of, BBox};
use chrome_ocr::detector::DETECTION_OVERLAP;
use chrome_ocr::lines::LINE_OVERLAP;
use chrome_ocr::measure::{
    is_above, is_at_least, larger_of, Measure, FIFTEEN, FORTY_FOUR_HUNDREDTHS, FOUR_TENTHS, HALF, HUNDRED_AND_SIXTY_FIVE,
    HUNDRED_AND_TWENTY, LARGEST, ONE_AND_A_HALF, SEVEN_TENTHS, SIXTY, SIX_TENTHS, TENTH, THIRTY, THREE_TENTHS,
};
use chrome_ocr::recognizer::{CHAR_CONF_THRESHOLD, UND_CHAR_CONF_THRESHOLD};
use chrome_ocr::rules::{
    are_one_line, distance_ahead, do_overlap, is_dominated, is_headed, is_level, is_line, is_removed, is_repeated,
    is_slanted, is_steep, is_taken_in, on_same_line, Approach, Fragments, Heading, Neighbour, Overlap, Shape,
};
use chrome_ocr::sorter::ROW_GAP;

fn ordinal(x: f32) -> i32 {
    let b = x.to_bits() as i32;
    if b < 0 {
        -(b & 0x7fff_ffff)
    } else {
        b
    }
}

fn m(x: f32) -> Measure {
    if x.is_nan() {
        None
    } else {
        Some(ordinal(x))
    }
}

#[test]
fn constants_are_the_ordinals_of_their_numbers() {
    assert_eq!(TENTH, ordinal(0.1));
    assert_eq!(THREE_TENTHS, ordinal(0.3));
    assert_eq!(FOUR_TENTHS, ordinal(0.4));
    assert_eq!(FORTY_FOUR_HUNDREDTHS, ordinal(0.44));
    assert_eq!(HALF, ordinal(0.5));
    assert_eq!(SIX_TENTHS, ordinal(0.6));
    assert_eq!(SEVEN_TENTHS, ordinal(0.7));
    assert_eq!(ONE_AND_A_HALF, ordinal(1.5));
    assert_eq!(FIFTEEN, ordinal(15.0));
    assert_eq!(THIRTY, ordinal(30.0));
    assert_eq!(SIXTY, ordinal(60.0));
    assert_eq!(HUNDRED_AND_TWENTY, ordinal(120.0));
    assert_eq!(HUNDRED_AND_SIXTY_FIVE, ordinal(165.0));
    assert_eq!(LARGEST, ordinal(f32::MAX));
    assert_eq!(CHAR_CONF_THRESHOLD, ordinal(0.15));
    assert_eq!(UND_CHAR_CONF_THRESHOLD, ordinal(0.0));
    assert_eq!(ROW_GAP, ordinal(0.03));
    assert_eq!(DETECTION_OVERLAP, ordinal(0.3));
    assert_eq!(LINE_OVERLAP, ordinal(0.6));
}

#[test]
fn ordinals_order_as_their_numbers() {
    let xs = [f32::NEG_INFINITY, f32::MIN, -2.5, -1e-40, -0.0, 0.0, 1e-40, 0.1, 3.0, f32::MAX, f32::INFINITY, f32::NAN];
    for &a in &xs {
        for &b in &xs {
            assert_eq!(is_above(m(a), m(b)), a > b);
            assert_eq!(is_at_least(m(a), m(b)), a >= b);
            assert_eq!(larger_of(m(a), m(b)), m(a.max(b)));
        }
    }
}

#[test]
fn boxes_span_both() {
    let a = BBox::with_angle(1, 5, 10, 20, 3, 7);
    let b = BBox::new(-4, 6, 8, 30, 2);
    assert_eq!(b.angle, 0);
    assert_eq!(a.joined_with(&b), BBox::with_angle(-4, 5, 10, 30, 3, 0));
    assert_eq!(b.joined_with(&a), BBox::with_angle(-4, 5, 10, 30, 3, 7));
    assert_eq!(a.as_array(), [1, 5, 10, 20]);
    assert_eq!(lesser_of(3, -3), -3);
    assert_eq!(greater_of(3, -3), 3);
}

fn near() -> Approach {
    Approach {
        height_ratio: m(1.0),
        offset: m(1.0),
        offset_limit: m(6.0),
        along: m(25.0),
        back_limit: m(-10.0),
        gap: m(5.0),
        gap_limit: m(30.0),
        turn: m(2.0),
    }
}

#[test]
fn a_candidate_continues_a_line() {
    assert_eq!(distance_ahead(near()), m(25.0));
    assert_eq!(distance_ahead(Approach { height_ratio: m(1.5), ..near() }), m(25.0));
    assert_eq!(distance_ahead(Approach { height_ratio: m(1.51), ..near() }), None);
    assert_eq!(distance_ahead(Approach { offset: m(6.1), ..near() }), None);
    assert_eq!(distance_ahead(Approach { along: m(-10.1), ..near() }), None);
    assert_eq!(distance_ahead(Approach { along: m(-9.9), ..near() }), m(-9.9));
    assert_eq!(distance_ahead(Approach { gap: m(30.5), ..near() }), None);
    assert_eq!(distance_ahead(Approach { turn: m(30.1), ..near() }), None);
    assert_eq!(distance_ahead(Approach { turn: None, ..near() }), m(25.0));
    assert_eq!(distance_ahead(Approach { along: m(f32::MAX), ..near() }), None);
    assert_eq!(distance_ahead(Approach { along: None, ..near() }), None);
}

fn apart() -> Overlap {
    Overlap {
        iou: m(0.0),
        first_in_second: m(0.0),
        second_in_first: m(0.0),
        breadth_ratio: m(1.0),
        row_overlap: m(0.0),
        column_overlap: m(1.0),
        breadth_overlap: m(-0.2),
        depth_gap: m(0.0),
    }
}

fn copy() -> Overlap {
    Overlap {
        iou: m(1.0),
        first_in_second: m(1.0),
        second_in_first: m(1.0),
        breadth_ratio: m(1.0),
        row_overlap: m(1.0),
        column_overlap: m(1.0),
        breadth_overlap: m(1.0),
        depth_gap: m(0.0),
    }
}

#[test]
fn what_lies_apart_is_left_alone() {
    let o = apart();
    assert!(!do_overlap(o) && !on_same_line(o) && !is_dominated(o, HALF) && !is_repeated(o) && !is_removed(o));
}

#[test]
fn copies_are_found_by_every_rule() {
    let o = copy();
    assert!(do_overlap(o) && on_same_line(o) && is_dominated(o, HALF) && is_repeated(o) && is_removed(o));
}

#[test]
fn clusters_overlap_from_a_tenth_on() {
    assert!(do_overlap(Overlap { iou: m(0.1), ..apart() }));
    assert!(!do_overlap(Overlap { iou: m(0.0999), ..apart() }));
    assert!(!do_overlap(Overlap { first_in_second: m(0.5), ..apart() }));
    assert!(do_overlap(Overlap { second_in_first: m(0.51), ..apart() }));
    assert!(!on_same_line(Overlap { iou: m(0.5), row_overlap: m(0.7), ..apart() }));
    assert!(on_same_line(Overlap { iou: m(0.5), row_overlap: m(0.71), ..apart() }));
}

#[test]
fn lines_dominate_those_of_like_width() {
    let t = ordinal(0.6);
    assert!(!is_dominated(Overlap { breadth_ratio: m(0.59), ..copy() }, t));
    assert!(is_dominated(Overlap { iou: m(0.61), ..apart() }, t));
    assert!(!is_dominated(Overlap { iou: m(0.6), ..apart() }, t));
    assert!(is_dominated(Overlap { first_in_second: m(0.61), ..apart() }, t));
    let row = Overlap { row_overlap: m(0.61), breadth_overlap: m(0.31), depth_gap: m(1.4), ..apart() };
    assert!(is_dominated(row, t));
    assert!(!is_dominated(Overlap { row_overlap: m(0.6), ..row }, t));
    assert!(!is_dominated(Overlap { breadth_overlap: m(0.3), ..row }, t));
    assert!(!is_dominated(Overlap { depth_gap: m(1.5), ..row }, t));
}

#[test]
fn regions_repeat_known_ones() {
    assert!(is_repeated(Overlap { iou: m(0.61), breadth_ratio: m(0.1), ..apart() }));
    assert!(is_repeated(Overlap { first_in_second: m(0.61), breadth_ratio: m(0.51), ..apart() }));
    assert!(!is_repeated(Overlap { first_in_second: m(0.61), breadth_ratio: m(0.5), row_overlap: m(0.1), ..apart() }));
    let row = Overlap { row_overlap: m(0.61), column_overlap: m(0.51), breadth_ratio: m(0.5), ..apart() };
    assert!(is_repeated(row));
    assert!(!is_repeated(Overlap { breadth_ratio: m(0.49), ..row }));
    assert!(!is_repeated(Overlap { row_overlap: m(0.6), ..row }));
    assert!(!is_repeated(Overlap { column_overlap: m(0.5), ..row }));
}

#[test]
fn lines_remove_fragments_and_copies() {
    let fragment = Overlap { first_in_second: m(0.4), breadth_ratio: m(0.29), row_overlap: m(0.45), ..apart() };
    assert!(is_removed(fragment));
    assert!(!is_removed(Overlap { row_overlap: m(0.44), ..fragment }));
    assert!(!is_removed(Overlap { first_in_second: m(0.3), ..fragment }));
    assert!(!is_removed(Overlap { breadth_ratio: m(0.3), ..copy() }));
    assert!(!is_removed(Overlap { breadth_ratio: m(0.49), ..copy() }));
    let like = Overlap { second_in_first: m(0.61), breadth_ratio: m(0.5), row_overlap: m(0.1), ..apart() };
    assert!(is_removed(like));
    assert!(!is_removed(Overlap { second_in_first: m(0.6), ..like }));
    assert!(is_removed(Overlap { second_in_first: m(0.31), row_overlap: m(0.71), ..like }));
    assert!(!is_removed(Overlap { second_in_first: m(0.31), row_overlap: m(0.7), ..like }));
}

#[test]
fn small_clusters_are_taken_in_along_a_line() {
    let n = Neighbour {
        height_ratio: m(1.5),
        turn: m(30.0),
        offset: m(3.0),
        offset_limit: m(3.0),
        gap: m(7.0),
        gap_limit: m(60.0),
        mean_width: m(10.0),
        gap_in_widths: m(0.7),
    };
    assert!(is_taken_in(n));
    assert!(!is_taken_in(Neighbour { height_ratio: m(1.6), ..n }));
    assert!(!is_taken_in(Neighbour { turn: m(31.0), ..n }));
    assert!(!is_taken_in(Neighbour { offset: m(3.1), ..n }));
    assert!(!is_taken_in(Neighbour { gap: m(61.0), ..n }));
    assert!(!is_taken_in(Neighbour { gap_in_widths: m(0.71), ..n }));
    assert!(is_taken_in(Neighbour { gap_in_widths: m(0.71), gap: m(0.0), ..n }));
    assert!(is_taken_in(Neighbour { gap_in_widths: m(0.71), mean_width: m(0.0), ..n }));
}

#[test]
fn only_level_groups_are_cut() {
    assert!(is_level(m(0.0)) && is_level(m(15.0)) && is_level(m(165.0)) && is_level(m(180.0)) && is_level(None));
    assert!(!is_level(m(15.1)) && !is_level(m(90.0)) && !is_level(m(164.9)));
}

#[test]
fn slanted_and_steep_lines_are_told() {
    assert!(!is_slanted(m(0.05)) && is_slanted(m(0.0501)) && !is_slanted(m(0.0)) && !is_slanted(None));
    let eighth = std::f32::consts::FRAC_PI_4;
    assert!(!is_steep(m(eighth)) && is_steep(m(eighth * 1.001)) && !is_steep(m(0.5)) && !is_steep(None));
}

#[test]
fn fragments_make_one_line() {
    let f = Fragments {
        first_width: m(100.0),
        second_width: m(90.0),
        first_height: m(20.0),
        second_height: m(22.0),
        turn: m(0.01),
        offset: m(4.0),
        offset_limit: m(10.0),
        breadth_ratio: m(0.9),
        breadth_overlap: m(-0.1),
        gap: m(12.0),
        gap_limit: m(31.5),
    };
    assert!(are_one_line(f));
    assert!(!are_one_line(Fragments { first_width: m(0.0), ..f }));
    assert!(!are_one_line(Fragments { second_height: m(-1.0), ..f }));
    assert!(are_one_line(Fragments { turn: m(3.0f32.to_radians()), ..f }));
    assert!(!are_one_line(Fragments { turn: m(3.01f32.to_radians()), ..f }));
    assert!(!are_one_line(Fragments { offset: m(10.1), ..f }));
    assert!(!are_one_line(Fragments { breadth_ratio: m(0.59), ..f }));
    assert!(!are_one_line(Fragments { gap: m(31.5), ..f }));
    assert!(are_one_line(Fragments { gap: m(31.5), breadth_overlap: m(0.6), ..f }));
}

#[test]
fn narrow_boxes_head_lines() {
    let h = Heading {
        width: m(40.0),
        twice_width: m(40.0),
        height: m(60.0),
        thrice_height: m(60.0),
        centre: m(10.0),
        top: m(10.0),
        bottom: m(30.0),
        left: m(50.0),
        left_limit: m(50.0),
        gap: m(50.0),
        gap_limit: m(50.0),
    };
    assert!(is_headed(h));
    assert!(!is_headed(Heading { width: m(39.0), ..h }));
    assert!(!is_headed(Heading { height: m(61.0), ..h }));
    assert!(!is_headed(Heading { centre: m(9.0), ..h }));
    assert!(!is_headed(Heading { centre: m(31.0), ..h }));
    assert!(!is_headed(Heading { left: m(51.0), ..h }));
    assert!(!is_headed(Heading { gap: m(51.0), ..h }));
}

#[test]
fn groups_that_are_no_text_are_dropped() {
    let s = Shape {
        aspect: m(5.0),
        pixel_height: m(40.0),
        tilt: m(0.0),
        width: m(200.0),
        height: m(50.0),
    };
    assert!(is_line(1, ordinal(0.4), s));
    assert!(!is_line(1, ordinal(0.39), s));
    assert!(is_line(2, ordinal(0.39), s));
    let bar = Shape { aspect: m(15.1), pixel_height: m(29.0), ..s };
    assert!(!is_line(29, ordinal(0.9), bar));
    assert!(is_line(30, ordinal(0.9), bar));
    assert!(is_line(29, ordinal(0.9), Shape { pixel_height: m(30.0), ..bar }));
    let upright = Shape { tilt: m(90.0), ..s };
    assert!(!is_line(4, ordinal(0.9), upright));
    assert!(is_line(5, ordinal(0.9), upright));
    assert!(is_line(4, ordinal(0.9), Shape { tilt: m(60.0), ..s }));
    assert!(is_line(4, ordinal(0.9), Shape { tilt: m(120.0), ..s }));
    assert!(!is_line(5, ordinal(0.9), Shape { width: m(150.0), ..s }));
    assert!(is_line(5, ordinal(0.9), Shape { width: m(150.1), ..s }));
    assert!(!is_line(5, ordinal(0.9), Shape { height: m(40.0), ..s }));
    assert!(is_line(5, ordinal(0.9), Shape { height: m(40.1), ..s }));
    assert!(!is_line(5, ordinal(0.9), Shape { width: m(f32::NAN), ..s }));
}
