use chrome_ocr::clusters::{absorb_small, join_overlapping, join_same_line, merge_lines};
use chrome_ocr::disjoint::DisjointSet;
use chrome_ocr::expansion::expand_clusters;
use chrome_ocr::groups::{append_copy, copy_group, cut_into_runs, gather_classes, sort_group, split_lines};
use chrome_ocr::ordering::{order_falling, order_rising, pair_key, stable_order};
use chrome_ocr::suppress::{is_dominated_by, retain_texts, suppress};

#[test]
fn equal_keys_keep_their_order() {
    assert_eq!(stable_order(&vec![3, 1, 2, 1, 3, -5]), vec![5, 1, 3, 2, 0, 4]);
    assert_eq!(order_rising(&vec![7, -7, 0, -7]), vec![1, 3, 2, 0]);
    assert_eq!(order_falling(&vec![7, -7, 0, 7]), vec![0, 3, 2, 1]);
    assert_eq!(order_falling(&vec![i32::MIN, i32::MAX]), vec![1, 0]);
    assert_eq!(stable_order(&Vec::new()), Vec::<usize>::new());
}

#[test]
fn pairs_are_ordered_by_the_major_part_first() {
    let pairs = [(i32::MIN, i32::MAX), (-1, i32::MIN), (-1, -1), (-1, 0), (0, i32::MIN), (0, 5), (i32::MAX, 0)];
    for i in 0..pairs.len() {
        for j in 0..pairs.len() {
            let a = pair_key(pairs[i].0, pairs[i].1);
            let b = pair_key(pairs[j].0, pairs[j].1);
            assert_eq!(a < b, pairs[i] < pairs[j]);
            assert_eq!(a == b, pairs[i] == pairs[j]);
        }
    }
}

#[test]
fn linked_classes_have_one_root() {
    let mut set = DisjointSet::new(6);
    assert_eq!(set.find(4), 4);
    set.link(1, 4);
    set.link(0, 1);
    set.link(2, 5);
    assert_eq!(set.find(4), 0);
    assert_eq!(set.find_halving(4), 0);
    assert_eq!(set.find_halving(5), 2);
    assert_eq!(set.find(3), 3);
}

fn classes(set: &mut DisjointSet, n: usize) -> Vec<usize> {
    (0..n).map(|i| set.find(i)).collect()
}

#[test]
fn same_line_joins_reach_through_others() {
    let mut set = DisjointSet::new(5);
    join_same_line(&mut set, 5, |i, j| i + 2 == j);
    assert_eq!(classes(&mut set, 5), vec![0, 1, 0, 1, 0]);
    join_same_line(&mut set, 5, |i, j| i + 2 == j);
    assert_eq!(classes(&mut set, 5), vec![0, 1, 0, 1, 0]);
}

#[test]
fn overlapping_joins_stop_where_the_class_grows_too_high() {
    let mut set = DisjointSet::new(4);
    join_overlapping(&mut set, 4, |i, j| i + 1 == j, |class| class.len() <= 2);
    assert_eq!(classes(&mut set, 4), vec![0, 0, 2, 2]);
    let mut set = DisjointSet::new(4);
    join_overlapping(&mut set, 4, |i, j| i + 1 == j, |_| false);
    assert_eq!(classes(&mut set, 4), vec![0, 1, 2, 3]);
}

#[test]
fn the_height_of_a_class_counts_all_its_clusters() {
    let asked = std::cell::RefCell::new(Vec::new());
    let mut set = DisjointSet::new(3);
    join_overlapping(&mut set, 3, |_, _| true, |class| {
        asked.borrow_mut().push(class.clone());
        true
    });
    assert_eq!(asked.into_inner(), vec![vec![0, 1], vec![0, 1, 2]]);
    assert_eq!(classes(&mut set, 3), vec![0, 0, 0]);
}

#[test]
fn small_clusters_go_to_the_first_larger_one() {
    let mut set = DisjointSet::new(4);
    absorb_small(&mut set, &vec![1, 5, 9, 4], |small, large| small == 0 && large >= 2);
    assert_eq!(classes(&mut set, 4), vec![2, 1, 2, 3]);
}

#[test]
fn larger_clusters_are_not_absorbed() {
    let mut set = DisjointSet::new(2);
    absorb_small(&mut set, &vec![4, 9], |_, _| true);
    assert_eq!(classes(&mut set, 2), vec![0, 1]);
    let mut set = DisjointSet::new(2);
    absorb_small(&mut set, &vec![1, 2], |_, _| true);
    assert_eq!(classes(&mut set, 2), vec![0, 1]);
}

#[test]
fn a_small_cluster_of_a_large_class_stays() {
    let mut set = DisjointSet::new(3);
    set.link(1, 0);
    absorb_small(&mut set, &vec![2, 2, 6], |_, _| true);
    assert_eq!(classes(&mut set, 3), vec![1, 1, 2]);
}

#[test]
fn fragments_are_joined_until_none_is_left() {
    let mut set = DisjointSet::new(5);
    merge_lines(&mut set, 5, |i, j| (i == 0 && j == 3) || (i == 1 && j == 3) || (i == 2 && j == 4));
    let roots = classes(&mut set, 5);
    assert_eq!(roots[0], roots[1]);
    assert_eq!(roots[0], roots[3]);
    assert_eq!(roots[2], roots[4]);
    assert_ne!(roots[0], roots[2]);
}

#[test]
fn classes_are_gathered_in_the_order_of_their_first_cluster() {
    let mut set = DisjointSet::new(3);
    set.link(0, 2);
    let groups = gather_classes(&vec![vec![4, 1], vec![0], vec![2, 3]], &mut set);
    assert_eq!(groups, vec![vec![4, 1, 2, 3], vec![0]]);
}

#[test]
fn runs_are_cut_between_neighbours() {
    let runs = cut_into_runs(&vec![3, 1, 4, 0, 2], 5, |a, b| a == 1 && b == 4);
    assert_eq!(runs, vec![vec![3, 1], vec![4, 0, 2]]);
    assert_eq!(cut_into_runs(&Vec::new(), 5, |_, _| true), Vec::<Vec<usize>>::new());
    assert_eq!(cut_into_runs(&vec![2], 5, |_, _| true), vec![vec![2]]);
}

#[test]
fn groups_are_sorted_and_copied() {
    assert_eq!(sort_group(&vec![2, 0, 1], &vec![5, -3, 5]), vec![1, 2, 0]);
    let mut group = copy_group(&vec![1, 2]);
    append_copy(&mut group, &vec![0, 2]);
    assert_eq!(group, vec![1, 2, 0, 2]);
}

#[test]
fn groups_are_cut_between_lines() {
    let centers = vec![10, 50, 12, 51, 11];
    let wide = |_: &Vec<usize>, a: usize, b: usize| centers[b] - centers[a] > 20;
    let lines = split_lines(&vec![vec![0, 1, 2, 3, 4]], &centers, |_| false, wide);
    assert_eq!(lines, vec![vec![0, 4, 2], vec![1, 3]]);
    let whole = split_lines(&vec![vec![0, 1, 2, 3, 4]], &centers, |_| true, wide);
    assert_eq!(whole, vec![vec![0, 1, 2, 3, 4]]);
    let pair = split_lines(&vec![vec![0, 1]], &centers, |_| false, wide);
    assert_eq!(pair, vec![vec![0, 1]]);
    let level = split_lines(&vec![vec![2, 0, 4]], &centers, |_| false, wide);
    assert_eq!(level, vec![vec![2, 0, 4]]);
}

#[test]
fn clusters_grow_to_the_nearest_box_both_ways() {
    let x: [i32; 6] = [30, 10, 20, 40, 0, 90];
    let cells: Vec<(i32, i32)> = x.iter().map(|x| (x / 20, 0)).collect();
    let search = |_: usize, forward: bool, cur: usize| ((x[cur] + if forward { 10 } else { -10 }) / 20, 0);
    let along = |_: usize, forward: bool, cur: usize, other: usize| {
        let d = if forward { x[other] - x[cur] } else { x[cur] - x[other] };
        if 0 < d && d <= 15 {
            Some(d)
        } else {
            None
        }
    };
    let clusters = expand_clusters(&vec![0, 1, 2, 3, 4, 5], &cells, 100, search, along);
    assert_eq!(clusters, vec![vec![0, 3, 2, 1, 4], vec![5]]);
    let mut all: Vec<usize> = clusters.concat();
    all.sort();
    assert_eq!(all, vec![0, 1, 2, 3, 4, 5]);
}

#[test]
fn cells_beyond_the_grid_run_over_into_other_rows() {
    let cells = vec![(0, 0), (3, 0)];
    let clusters = expand_clusters(&vec![0, 1], &cells, 3, |_, _, _| (0, 1), |_, _, _, _| Some(1));
    assert_eq!(clusters, vec![vec![0, 1]]);
    let clusters = expand_clusters(&vec![0, 1], &cells, 9, |_, _, _| (0, 1), |_, _, _, _| Some(1));
    assert_eq!(clusters, vec![vec![0], vec![1]]);
}

#[test]
fn a_line_is_followed_for_two_hundred_steps() {
    let cells = vec![(0, 0); 450];
    let order: Vec<usize> = (0..450).collect();
    let clusters = expand_clusters(&order, &cells, 1, |_, _, _| (0, 0), |_, forward, _, _| if forward { Some(0) } else { None });
    assert_eq!(clusters.len(), 3);
    assert_eq!(clusters[0].len(), 201);
    assert_eq!(clusters[1].len(), 201);
    assert_eq!(clusters[2].len(), 48);
}

#[test]
fn survivors_are_dominated_by_none_before() {
    let kept = suppress(&vec![2, 0, 1, 3], 4, |a, b| a + b == 3 || (a == 0 && b == 3));
    assert_eq!(kept, vec![2, 0]);
    let again = suppress(&kept, 4, |a, b| a + b == 3 || (a == 0 && b == 3));
    assert_eq!(again, kept);
    assert!(is_dominated_by(&kept, 1, &|a, b| a + b == 3));
    assert!(!is_dominated_by(&kept, 2, &|a, b| a + b == 3));
}

#[test]
fn kept_texts_keep_their_order() {
    let texts: Vec<String> = ["a", "b", "c", "d"].iter().map(|s| s.to_string()).collect();
    assert_eq!(retain_texts(texts, &vec![3, 0]), vec!["a".to_string(), "d".to_string()]);
}
