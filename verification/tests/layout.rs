use chrome_ocr::bbox::BBox;
use chrome_ocr::grouping::{group_boxes, grow_clusters, join_clusters, refine_groups};
use chrome_ocr::lines::{finish_lines, form_lines, merge_heading_boxes, nms_merged_boxes};
use chrome_ocr::measure::Measure;
use chrome_ocr::ordering::order_falling;
use chrome_ocr::rules::{Approach, Fragments, Heading, Neighbour, Overlap, Shape};

fn ordinal(x: f32) -> i32 {
    let b = x.to_bits() as i32;
    if b < 0 {
        -(b & 0x7fff_ffff)
    } else {
        b
    }
}

fn number(o: i32) -> f32 {
    if o < 0 {
        -f32::from_bits(-o as u32)
    } else {
        f32::from_bits(o as u32)
    }
}

fn m(x: f32) -> Measure {
    if x.is_nan() {
        None
    } else {
        Some(ordinal(x))
    }
}

fn boxed(x1: f32, y1: f32, x2: f32, y2: f32, conf: f32) -> BBox {
    BBox::new(ordinal(x1), ordinal(y1), ordinal(x2), ordinal(y2), ordinal(conf))
}

fn edges(b: &BBox) -> [f32; 4] {
    [number(b.x1), number(b.y1), number(b.x2), number(b.y2)]
}

fn around(boxes: &[BBox], group: &[usize]) -> [f32; 4] {
    let mut out = [f32::INFINITY, f32::INFINITY, f32::NEG_INFINITY, f32::NEG_INFINITY];
    for &i in group {
        let e = edges(&boxes[i]);
        out = [out[0].min(e[0]), out[1].min(e[1]), out[2].max(e[2]), out[3].max(e[3])];
    }
    out
}

fn overlap(p: &[f32; 4], q: &[f32; 4]) -> Overlap {
    let across = (p[2].min(q[2]) - p[0].max(q[0])).max(0.0);
    let down = (p[3].min(q[3]) - p[1].max(q[1])).max(0.0);
    let (w1, h1, w2, h2) = (p[2] - p[0], p[3] - p[1], q[2] - q[0], q[3] - q[1]);
    let common = across * down;
    let span = p[2].max(q[2]) - p[0].min(q[0]);
    let depth = p[3].max(q[3]) - p[1].min(q[1]);
    Overlap {
        iou: m(common / (w1 * h1 + w2 * h2 - common + 1e-6)),
        first_in_second: m(common / (w1 * h1 + 1e-6)),
        second_in_first: m(common / (w2 * h2 + 1e-6)),
        breadth_ratio: m(w1.min(w2) / w1.max(w2)),
        row_overlap: m(if h1.min(h2) > 0.0 { down / h1.min(h2) } else { 0.0 }),
        column_overlap: m(if w1.min(w2) > 0.0 { across / w1.min(w2) } else { 0.0 }),
        breadth_overlap: m(if span > 0.0 { (w1 + w2 - span) / span } else { 0.0 }),
        depth_gap: m((depth - h1 - h2).max(0.0) / ((h1 + h2) * 0.5)),
    }
}

fn ratio(a: f32, b: f32) -> f32 {
    if a > b {
        a / b
    } else {
        b / a
    }
}

fn mean_height(boxes: &[BBox], group: &[usize]) -> f32 {
    group.iter().map(|&i| edges(&boxes[i])[3] - edges(&boxes[i])[1]).sum::<f32>() / group.len() as f32
}

fn mean_width(boxes: &[BBox], group: &[usize]) -> f32 {
    group.iter().map(|&i| edges(&boxes[i])[2] - edges(&boxes[i])[0]).sum::<f32>() / group.len() as f32
}

fn group(boxes: &[BBox]) -> Vec<Vec<usize>> {
    let all: Vec<usize> = (0..boxes.len()).collect();
    let (w, h) = (mean_width(boxes, &all), mean_height(boxes, &all));
    let (cell_w, cell_h) = ((w * 2.0).max(1.0), (h * 2.0).max(1.0));
    let centre = |i: usize| {
        let e = edges(&boxes[i]);
        ((e[0] + e[2]) / 2.0, (e[1] + e[3]) / 2.0)
    };
    let width = |i: usize| edges(&boxes[i])[2] - edges(&boxes[i])[0];
    let height = |i: usize| edges(&boxes[i])[3] - edges(&boxes[i])[1];
    let cells: Vec<(i32, i32)> =
        all.iter().map(|&i| ((centre(i).0 / cell_w) as i32, (centre(i).1 / cell_h) as i32)).collect();
    let confs: Vec<i32> = boxes.iter().map(|b| b.conf).collect();
    let centers: Vec<i32> = all.iter().map(|&i| ordinal(centre(i).1)).collect();
    let search = |_: usize, forward: bool, cur: usize| {
        let reach = width(cur) * 0.5 + w;
        let x = if forward { centre(cur).0 + reach } else { centre(cur).0 - reach };
        ((x / cell_w) as i32, (centre(cur).1 / cell_h) as i32)
    };
    let approach = |_: usize, forward: bool, cur: usize, other: usize| {
        let sign = if forward { 1.0 } else { -1.0 };
        let along = (centre(other).0 - centre(cur).0) * sign;
        Approach {
            height_ratio: m(ratio(height(cur), height(other))),
            offset: m((centre(other).1 - centre(cur).1).abs()),
            offset_limit: m(height(cur).min(height(other)) * 0.3),
            along: m(along),
            back_limit: m(-width(cur) * 0.5),
            gap: m(along - (width(cur) + width(other)) * 0.5),
            gap_limit: m(h * 1.5),
            turn: m(0.0),
        }
    };
    let neighbour = |small: &Vec<usize>, large: &Vec<usize>| {
        let (p, q) = (around(boxes, small), around(boxes, large));
        let (h1, h2) = (p[3] - p[1], q[3] - q[1]);
        let along = ((p[0] + p[2]) / 2.0 - (q[0] + q[2]) / 2.0).abs();
        let gap = along - (q[2] - q[0] + p[2] - p[0]) * 0.5;
        let mean = mean_width(boxes, small).min(mean_width(boxes, large));
        Neighbour {
            height_ratio: m(ratio(h1, h2)),
            turn: m(0.0),
            offset: m(((p[1] + p[3]) / 2.0 - (q[1] + q[3]) / 2.0).abs()),
            offset_limit: m(h1.min(h2) * 0.3),
            gap: m(gap),
            gap_limit: m(h * 1.5),
            mean_width: m(mean),
            gap_in_widths: m(gap / mean),
        }
    };
    let fragments = |a: &Vec<usize>, b: &Vec<usize>| {
        let (p, q) = (around(boxes, a), around(boxes, b));
        let (w1, h1, w2, h2) = (p[2] - p[0], p[3] - p[1], q[2] - q[0], q[3] - q[1]);
        let span = p[2].max(q[2]) - p[0].min(q[0]);
        Fragments {
            first_width: m(w1),
            second_width: m(w2),
            first_height: m(h1),
            second_height: m(h2),
            turn: m(0.0),
            offset: m(((p[1] + p[3]) * 0.5 - (q[1] + q[3]) * 0.5).abs()),
            offset_limit: m(mean_height(boxes, a).min(mean_height(boxes, b)) * 0.5),
            breadth_ratio: m(w1.min(w2) / w1.max(w2)),
            breadth_overlap: m((w1 + w2 - span) / span),
            gap: m((p[0].max(q[0]) - p[2].min(q[2])).max(0.0)),
            gap_limit: m((h1 + h2) * 0.5 * 1.5),
        }
    };
    group_boxes(
        &order_falling(&confs),
        &cells,
        (4096.0 / cell_w) as i32 + 1,
        &centers,
        search,
        approach,
        |a: &Vec<usize>, b: &Vec<usize>| overlap(&around(boxes, a), &around(boxes, b)),
        |a: &Vec<usize>| m(around(boxes, a)[3] - around(boxes, a)[1]),
        m(h * 2.0),
        neighbour,
        |_: &Vec<usize>| m(0.0),
        |g: &Vec<usize>, a: usize, b: usize| (m(centre(b).1 - centre(a).1), m(mean_height(boxes, g) * 1.5)),
        fragments,
    )
}

fn sorted(mut groups: Vec<Vec<usize>>) -> Vec<Vec<usize>> {
    for g in groups.iter_mut() {
        g.sort();
    }
    groups.sort();
    groups
}

fn row(y: f32, from: f32, count: usize) -> Vec<BBox> {
    (0..count).map(|i| boxed(from + 22.0 * i as f32, y, from + 22.0 * i as f32 + 20.0, y + 20.0, 0.9)).collect()
}

#[test]
fn rows_of_boxes_become_groups() {
    let mut boxes = row(100.0, 50.0, 8);
    boxes.extend(row(160.0, 50.0, 6));
    let groups = sorted(group(&boxes));
    assert_eq!(groups, vec![(0..8).collect::<Vec<usize>>(), (8..14).collect::<Vec<usize>>()]);
}

#[test]
fn every_box_is_in_one_group() {
    let mut boxes = Vec::new();
    let mut seed = 12345u32;
    for _ in 0..120 {
        let mut next = || {
            seed = seed.wrapping_mul(1_664_525).wrapping_add(1_013_904_223);
            (seed >> 8) as f32 / 16_777_216.0
        };
        let (x, y, w, h, c) = (next() * 900.0, next() * 400.0, 10.0 + next() * 20.0, 15.0 + next() * 10.0, next());
        boxes.push(boxed(x, y, x + w, y + h, c));
    }
    let mut all: Vec<usize> = group(&boxes).concat();
    all.sort();
    assert_eq!(all, (0..120).collect::<Vec<usize>>());
}

#[test]
fn distant_columns_stay_apart() {
    let mut boxes = row(100.0, 50.0, 6);
    boxes.extend(row(100.0, 600.0, 3));
    assert_eq!(sorted(group(&boxes)), vec![vec![0, 1, 2, 3, 4, 5], vec![6, 7, 8]]);
}

#[test]
fn clusters_follow_the_rules() {
    let cells = vec![(0, 0), (0, 0), (0, 0)];
    let near = Approach {
        height_ratio: m(1.0),
        offset: m(0.0),
        offset_limit: m(1.0),
        along: m(1.0),
        back_limit: m(-1.0),
        gap: m(0.0),
        gap_limit: m(1.0),
        turn: m(0.0),
    };
    let search = |_: usize, _: bool, _: usize| (0, 0);
    let all = grow_clusters(&vec![2, 0, 1], &cells, 1, search, |_, forward, _, other| Approach {
        turn: m(if forward && other == 1 { 0.0 } else { 40.0 }),
        ..near
    });
    assert_eq!(all, vec![vec![2, 1], vec![0]]);
}

#[test]
fn joined_clusters_keep_within_the_height() {
    let all = vec![vec![0], vec![1], vec![2]];
    let none = Neighbour {
        height_ratio: m(9.0),
        turn: m(0.0),
        offset: m(0.0),
        offset_limit: m(0.0),
        gap: m(0.0),
        gap_limit: m(0.0),
        mean_width: m(0.0),
        gap_in_widths: m(0.0),
    };
    let touching = |a: &Vec<usize>, b: &Vec<usize>| {
        let iou = if a[0] + 1 == b[0] { 0.5 } else { 0.0 };
        Overlap {
            iou: m(iou),
            first_in_second: m(0.0),
            second_in_first: m(0.0),
            breadth_ratio: m(1.0),
            row_overlap: m(0.5),
            column_overlap: m(1.0),
            breadth_overlap: m(1.0),
            depth_gap: m(0.0),
        }
    };
    let extent = |boxes: &Vec<usize>| m(boxes.len() as f32 * 10.0);
    assert_eq!(
        join_clusters(&all, touching, extent, m(20.0), |_: &Vec<usize>, _: &Vec<usize>| none),
        vec![vec![0, 1], vec![2]]
    );
    assert_eq!(
        join_clusters(&all, touching, extent, m(30.0), |_: &Vec<usize>, _: &Vec<usize>| none),
        vec![vec![0, 1, 2]]
    );
}

#[test]
fn refined_groups_are_cut_and_joined() {
    let apart = Fragments {
        first_width: m(1.0),
        second_width: m(1.0),
        first_height: m(1.0),
        second_height: m(1.0),
        turn: m(1.0),
        offset: m(0.0),
        offset_limit: m(0.0),
        breadth_ratio: m(1.0),
        breadth_overlap: m(1.0),
        gap: m(0.0),
        gap_limit: m(0.0),
    };
    let centers = vec![1, 50, 2, 49];
    let gap = |_: &Vec<usize>, a: usize, b: usize| (Some(centers[b] - centers[a]), Some(10));
    let level = |_: &Vec<usize>| m(0.0);
    let merged = vec![vec![0, 1, 2, 3]];
    assert_eq!(
        refine_groups(&merged, &centers, level, gap, |_: &Vec<usize>, _: &Vec<usize>| apart),
        vec![vec![0, 2], vec![3, 1]]
    );
    let one = Fragments { turn: m(0.0), ..apart };
    assert_eq!(
        refine_groups(&merged, &centers, level, gap, |_: &Vec<usize>, _: &Vec<usize>| one),
        vec![vec![0, 2, 3, 1]]
    );
    assert_eq!(
        refine_groups(&merged, &centers, |_: &Vec<usize>| m(90.0), gap, |_: &Vec<usize>, _: &Vec<usize>| apart),
        merged
    );
}

fn shape(b: &BBox) -> Shape {
    let e = edges(b);
    Shape {
        aspect: m((e[2] - e[0]) / (e[3] - e[1])),
        pixel_height: m(e[3] - e[1]),
        tilt: m(0.0),
        width: m(e[2] - e[0]),
        height: m(e[3] - e[1]),
    }
}

#[test]
fn lines_are_the_boxes_around_groups() {
    let boxes = vec![
        boxed(100.0, 100.0, 300.0, 400.0, 0.5),
        boxed(250.0, 50.0, 600.0, 380.0, 0.8),
        boxed(900.0, 900.0, 1200.0, 1200.0, 0.39),
        boxed(900.0, 900.0, 1050.0, 990.0, 0.9),
        boxed(900.0, 900.0, 1100.0, 940.0, 0.9),
    ];
    let groups = vec![vec![0, 1], vec![2], vec![3], vec![4]];
    let lines = form_lines(&groups, &boxes, |_: &Vec<usize>, b: &BBox| (ordinal(0.25), shape(b)));
    assert_eq!(lines.len(), 1);
    assert_eq!(edges(&lines[0]), [100.0, 50.0, 600.0, 400.0]);
    assert_eq!((number(lines[0].conf), number(lines[0].angle)), (0.8, 0.25));
}

fn width(b: &BBox) -> i32 {
    ordinal(edges(b)[2] - edges(b)[0])
}

fn limit(median: i32) -> i32 {
    ordinal(number(median) * 0.3)
}

fn place(heading: &BBox, text: &BBox) -> Heading {
    let (p, q) = (edges(heading), edges(text));
    Heading {
        width: m(q[2] - q[0]),
        twice_width: m((p[2] - p[0]) * 2.0),
        height: m(q[3] - q[1]),
        thrice_height: m((p[3] - p[1]) * 3.0),
        centre: m((p[1] + p[3]) * 0.5),
        top: m(q[1]),
        bottom: m(q[3]),
        left: m(p[0]),
        left_limit: m(q[0] + 50.0),
        gap: m(if p[2] < q[0] { q[0] - p[2] } else { 0.0 }),
        gap_limit: m(50.0),
    }
}

#[test]
fn headings_join_their_lines() {
    let mut lines = vec![
        boxed(100.0, 10.0, 400.0, 40.0, 0.9),
        boxed(20.0, 15.0, 60.0, 38.0, 0.95),
        boxed(20.0, 100.0, 400.0, 130.0, 0.7),
    ];
    merge_heading_boxes(&mut lines, width, limit, place);
    assert_eq!(lines, vec![boxed(20.0, 10.0, 400.0, 40.0, 0.95), boxed(20.0, 100.0, 400.0, 130.0, 0.7)]);
    let before = lines.clone();
    merge_heading_boxes(&mut lines, width, limit, place);
    assert_eq!(lines, before);
}

#[test]
fn distant_headings_stay() {
    let mut lines = vec![
        boxed(200.0, 10.0, 500.0, 40.0, 0.9),
        boxed(20.0, 15.0, 60.0, 38.0, 0.95),
        boxed(20.0, 100.0, 400.0, 130.0, 0.7),
    ];
    let before = lines.clone();
    merge_heading_boxes(&mut lines, width, limit, place);
    assert_eq!(lines, before);
    let mut one = vec![boxed(0.0, 0.0, 5.0, 5.0, 0.5)];
    merge_heading_boxes(&mut one, width, limit, place);
    assert_eq!(one.len(), 1);
}

#[test]
fn headings_are_narrower_than_the_limit() {
    let sixty = |_: i32| ordinal(60.0);
    let mut lines = vec![boxed(100.0, 10.0, 400.0, 40.0, 0.9), boxed(20.0, 15.0, 80.0, 38.0, 0.95)];
    let before = lines.clone();
    merge_heading_boxes(&mut lines, width, sixty, place);
    assert_eq!(lines, before);
    lines[1] = boxed(21.0, 15.0, 80.0, 38.0, 0.95);
    merge_heading_boxes(&mut lines, width, sixty, place);
    assert_eq!(lines, vec![boxed(21.0, 10.0, 400.0, 40.0, 0.95)]);
}

fn area(b: &BBox) -> i32 {
    let e = edges(b);
    ordinal((e[2] - e[0]) * (e[3] - e[1]))
}

#[test]
fn larger_lines_dominate_their_copies() {
    let boxes = vec![
        boxed(2.0, 2.0, 98.0, 28.0, 0.9),
        boxed(0.0, 0.0, 100.0, 30.0, 0.5),
        boxed(0.0, 0.0, 40.0, 30.0, 0.9),
        boxed(0.0, 50.0, 100.0, 80.0, 0.9),
    ];
    let areas: Vec<i32> = boxes.iter().map(area).collect();
    let kept = nms_merged_boxes(&boxes, &areas, ordinal(0.6), |a: &BBox, b: &BBox| overlap(&edges(a), &edges(b)));
    assert_eq!(kept, vec![boxes[1], boxes[3], boxes[2]]);
}

#[test]
fn finished_lines_are_formed_thinned_and_headed() {
    let boxes = vec![
        boxed(300.0, 100.0, 1300.0, 150.0, 0.9),
        boxed(305.0, 102.0, 1295.0, 149.0, 0.8),
        boxed(50.0, 103.0, 270.0, 148.0, 0.95),
        boxed(20.0, 300.0, 1300.0, 350.0, 0.7),
        boxed(20.0, 500.0, 1300.0, 550.0, 0.3),
        boxed(700.0, 700.0, 850.0, 760.0, 0.9),
        boxed(700.0, 800.0, 900.0, 840.0, 0.9),
    ];
    let groups = vec![vec![0], vec![1], vec![2], vec![3], vec![4], vec![5], vec![6]];
    let lines = finish_lines(
        &groups,
        &boxes,
        |_: &Vec<usize>, b: &BBox| (0, shape(b)),
        area,
        |a: &BBox, b: &BBox| overlap(&edges(a), &edges(b)),
        ordinal(0.6),
        width,
        limit,
        place,
    );
    assert_eq!(lines, vec![boxed(20.0, 300.0, 1300.0, 350.0, 0.7), boxed(50.0, 100.0, 1300.0, 150.0, 0.95)]);
}
