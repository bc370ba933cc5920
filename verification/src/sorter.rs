//! Putting lines in reading order.

use vstd::prelude::*;

use crate::bbox::BBox;
use crate::groups;
use crate::judge;
use crate::lines;
use crate::measure;
use crate::measure::Measure;
use crate::ordering;
use crate::ordering::Ordinal;

verus! {

/// The ordinal of 0.03: lines whose centres are closer, in parts of the image's
/// height, stand in one row.
pub const ROW_GAP: Ordinal = 0x3CF5_C28F;

/// Sorts lines row by row.
pub struct LayoutSorter;

/// The measurer may be asked about every two lines below `n`.
pub open spec fn distance_callable<F: Fn(usize, usize) -> Measure>(measurer: F, n: nat) -> bool {
    forall|i: usize, j: usize| i < n && j < n ==> #[trigger] call_requires(measurer, (i, j))
}

/// The measurer measures as `distance` says.
pub open spec fn measures_distance<F: Fn(usize, usize) -> Measure>(
    measurer: F,
    distance: spec_fn(int, int) -> Measure,
) -> bool {
    forall|i: usize, j: usize, r: Measure| #[trigger]
        call_ensures(measurer, (i, j), r) ==> r == distance(i as int, j as int)
}

/// A new row begins between two neighbours.
pub open spec fn row_cut(distance: spec_fn(int, int) -> Measure) -> spec_fn(int, int) -> bool {
    |i: int, j: int| !measure::exceeds(Some(ROW_GAP), distance(i, j))
}

/// The rows, from the top down; each from top to bottom.
pub open spec fn rows(y: Seq<Ordinal>, distance: spec_fn(int, int) -> Measure) -> Seq<Seq<usize>> {
    let order = ordering::sorted_positions(ordering::rising(y));
    groups::runs(order, order.len() as int, row_cut(distance))
}

/// The first `k` rows, each from left to right, one after the other.
pub open spec fn reading(rows: Seq<Seq<usize>>, x: Seq<Ordinal>, k: int) -> Seq<usize>
    decreases k,
{
    if k <= 0 {
        Seq::empty()
    } else {
        reading(rows, x, k - 1) + groups::sorted_group(rows[k - 1], x)
    }
}

/// The lines in reading order.
pub open spec fn reading_order(x: Seq<Ordinal>, y: Seq<Ordinal>, distance: spec_fn(int, int) -> Measure) -> Seq<usize> {
    let all = rows(y, distance);
    reading(all, x, all.len() as int)
}

fn pick(boxes: &Vec<BBox>, order: &Vec<usize>) -> (picked: Vec<BBox>)
    requires
        forall|p: int| 0 <= p < order.len() ==> (#[trigger] order[p]) < boxes.len(),
    ensures
        picked@ == lines::chosen(boxes@, order@),
{
    let mut picked: Vec<BBox> = Vec::new();
    let mut p: usize = 0;
    while p < order.len()
        invariant
            p <= order.len(),
            forall|q: int| 0 <= q < order.len() ==> (#[trigger] order[q]) < boxes.len(),
            picked.len() == p,
            forall|q: int| 0 <= q < p ==> #[trigger] picked[q] == boxes[order[q] as int],
        decreases order.len() - p,
    {
        picked.push(boxes[order[p]]);
        p = p + 1;
    }
    assert(picked@ =~= lines::chosen(boxes@, order@));
    picked
}

impl LayoutSorter {
    /// A sorter. Rows need no model, so the directory is not used.
    pub fn new(_model_dir: &str) -> (sorter: Result<LayoutSorter, String>)
        ensures
            sorter is Ok,
    {
        Ok(LayoutSorter)
    }

    /// Sorts lines in reading order: in rows from the top down, each row from left
    /// to right. `x` and `y` are the lines' centres, and `measurer` tells how far
    /// two of them are apart in height.
    pub fn sort<F: Fn(usize, usize) -> Measure>(
        &self,
        boxes: &Vec<BBox>,
        x: &Vec<Ordinal>,
        y: &Vec<Ordinal>,
        measurer: F,
    ) -> (sorted: Vec<BBox>)
        requires
            x.len() == boxes.len(),
            y.len() == boxes.len(),
            distance_callable(measurer, boxes.len() as nat),
        ensures
            forall|distance: spec_fn(int, int) -> Measure| #[trigger]
                measures_distance(measurer, distance) ==> sorted@ == lines::chosen(
                    boxes@,
                    reading_order(x@, y@, distance),
                ),
    {
        let order = ordering::order_rising(y);
        let measure = &measurer;
        let cut = |i: usize, j: usize| -> (r: bool)
            requires
                i < boxes.len(),
                j < boxes.len(),
            ensures
                exists|m: Measure| #[trigger]
                    call_ensures(*measure, (i, j), m) && r == !measure::exceeds(Some(ROW_GAP), m),
            {
                let m = measure(i, j);
                !measure::is_above(Some(ROW_GAP), m)
            };
        let found = groups::cut_into_runs(&order, boxes.len(), cut);
        proof {
            assert forall|distance: spec_fn(int, int) -> Measure| #[trigger]
                measures_distance(measurer, distance) implies groups::contents(found@) == rows(y@, distance) by {
                assert(judge::decides(cut, row_cut(distance)));
            }
        }
        let mut read: Vec<usize> = Vec::new();
        let ghost all = groups::contents(found@);
        let mut k: usize = 0;
        while k < found.len()
            invariant
                k <= found.len(),
                all == groups::contents(found@),
                x.len() == boxes.len(),
                groups::within(all, boxes.len() as nat),
                read@ == reading(all, x@, k as int),
                forall|p: int| 0 <= p < read.len() ==> (#[trigger] read[p]) < boxes.len(),
            decreases found.len() - k,
        {
            assert forall|p: int| 0 <= p < found[k as int].len() implies (#[trigger] found[k as int][p]) < boxes.len() by {
                assert(all[k as int][p] < boxes.len());
            }
            let row = groups::sort_group(&found[k], x);
            groups::append_copy(&mut read, &row);
            k = k + 1;
        }
        pick(boxes, &read)
    }

    /// Sorts lines by their centres: by height, and from left to right where that
    /// is equal.
    pub fn sort_simple(boxes: &Vec<BBox>, x: &Vec<Ordinal>, y: &Vec<Ordinal>) -> (sorted: Vec<BBox>)
        requires
            x.len() == boxes.len(),
            y.len() == boxes.len(),
        ensures
            sorted@ == lines::chosen(
                boxes@,
                ordering::sorted_positions(
                    Seq::new(boxes.len() as nat, |p: int| ordering::paired_key(y[p], x[p])),
                ),
            ),
    {
        let mut keys: Vec<i64> = Vec::new();
        while keys.len() < boxes.len()
            invariant
                keys.len() <= boxes.len(),
                x.len() == boxes.len(),
                y.len() == boxes.len(),
                forall|p: int| 0 <= p < keys.len() ==> #[trigger] keys[p] == ordering::paired_key(y[p], x[p]),
            decreases boxes.len() - keys.len(),
        {
            let k: usize = keys.len();
            keys.push(ordering::pair_key(y[k], x[k]));
        }
        assert(keys@ =~= Seq::new(boxes.len() as nat, |p: int| ordering::paired_key(y[p], x[p])));
        let order = ordering::stable_order(&keys);
        pick(boxes, &order)
    }
}

proof fn lemma_reading_keeps(all: Seq<Seq<usize>>, x: Seq<Ordinal>, k: int, i: usize)
    requires
        0 <= k <= all.len(),
        forall|p: int| 0 <= p < all.len() ==> (#[trigger] all[p]).len() <= usize::MAX,
    ensures
        groups::occurrences(reading(all, x, k), i) == groups::total(all.take(k), i),
    decreases k,
{
    if k > 0 {
        lemma_reading_keeps(all, x, k - 1, i);
        let row = all[k - 1];
        let sorted = groups::sorted_group(row, x);
        let keys = ordering::rising(groups::ordinals_of(row, x));
        ordering::law_stable_order_exists(keys);
        groups::law_rearranging_keeps_items(row, ordering::sorted_positions(keys), i);
        groups::lemma_occurrences_concat(reading(all, x, k - 1), sorted, i);
        assert(all.take(k) =~= all.take(k - 1).push(row));
        groups::lemma_total_push(all.take(k - 1), row, i);
    } else {
        assert(all.take(0) =~= Seq::empty());
    }
}

proof fn lemma_permutation_occurs_once(order: Seq<usize>, n: nat, i: usize)
    requires
        ordering::is_permutation(order, n),
    ensures
        groups::occurrences(order, i) == (if i < n {
            1nat
        } else {
            0
        }),
{
    if i < n {
        ordering::law_permutation_covers(order, n, i as int);
    }
    lemma_occurrences_of_distinct(order, i);
}

proof fn lemma_occurrences_of_distinct(s: Seq<usize>, i: usize)
    requires
        s.no_duplicates(),
    ensures
        groups::occurrences(s, i) == (if s.contains(i) {
            1nat
        } else {
            0
        }),
    decreases s.len(),
{
    if s.len() > 0 {
        let before = s.drop_last();
        lemma_occurrences_of_distinct(before, i);
        if s.contains(i) {
            let p = choose|p: int| 0 <= p < s.len() && s[p] == i;
            if p < before.len() {
                assert(before[p] == i);
            }
        }
        if before.contains(i) {
            let p = choose|p: int| 0 <= p < before.len() && before[p] == i;
            assert(s[p] == i);
        }
        if s.last() == i {
            assert(s[s.len() - 1] == i);
        }
    }
}

/// Sorting loses no line and repeats none: every line is in the reading order
/// exactly once.
pub proof fn law_sorting_keeps_lines(
    x: Seq<Ordinal>,
    y: Seq<Ordinal>,
    distance: spec_fn(int, int) -> Measure,
    i: usize,
)
    requires
        y.len() <= usize::MAX,
    ensures
        groups::occurrences(reading_order(x, y, distance), i) == (if i < y.len() {
            1nat
        } else {
            0
        }),
{
    let keys = ordering::rising(y);
    ordering::law_stable_order_exists(keys);
    let order = ordering::sorted_positions(keys);
    let all = rows(y, distance);
    groups::law_runs_keep_items(order, order.len() as int, row_cut(distance), i);
    assert(order.take(order.len() as int) =~= order);
    lemma_permutation_occurs_once(order, y.len(), i);
    groups::lemma_runs_are_short(order, order.len() as int, row_cut(distance));
    lemma_reading_keeps(all, x, all.len() as int, i);
    assert(all.take(all.len() as int) =~= all);
}

/// No row ends between places `a` and `b` of the lines in order of height: of
/// every two neighbours there the centres are closer than 0.03.
pub open spec fn in_one_row(by_height: Seq<usize>, distance: spec_fn(int, int) -> Measure, a: int, b: int) -> bool {
    forall|m: int|
        a <= m < b ==> ((#[trigger] distance(by_height[m] as int, by_height[m + 1] as int)) matches Some(d) && d
            < 0x3CF5_C28F)
}

proof fn lemma_reading_at(all: Seq<Seq<usize>>, x: Seq<Ordinal>, k: int, n: int, q: int)
    requires
        0 <= k < n <= all.len(),
        0 <= q < groups::sorted_group(all[k], x).len(),
    ensures
        reading(all, x, k).len() + q < reading(all, x, k + 1).len() <= reading(all, x, n).len(),
        reading(all, x, n)[reading(all, x, k).len() + q] == groups::sorted_group(all[k], x)[q],
    decreases n,
{
    if k < n - 1 {
        lemma_reading_at(all, x, k, n - 1, q);
    }
}

/// The place of row item `q` within its row when the row is read.
proof fn lemma_place_in_row(row: Seq<usize>, x: Seq<Ordinal>, q: int) -> (at: int)
    requires
        0 <= q < row.len() <= usize::MAX,
    ensures
        ordering::is_stable_order(
            ordering::sorted_positions(ordering::rising(groups::ordinals_of(row, x))),
            ordering::rising(groups::ordinals_of(row, x)),
        ),
        0 <= at < groups::sorted_group(row, x).len(),
        ordering::sorted_positions(ordering::rising(groups::ordinals_of(row, x)))[at] == q,
        groups::sorted_group(row, x)[at] == row[q],
{
    let keys = ordering::rising(groups::ordinals_of(row, x));
    ordering::law_stable_order_exists(keys);
    let order = ordering::sorted_positions(keys);
    ordering::law_permutation_covers(order, keys.len(), q);
    choose|at: int| 0 <= at < order.len() && #[trigger] order[at] == q
}

/// Lines are read row by row. `by_height` lists the lines by the height of their
/// centres, those of one height in the order given. Of two lines in one row the
/// left one is read first, and of two at one place the upper; of two lines that a
/// row's end parts the upper one is read first. Each line is given as it is.
pub proof fn law_rows_are_read_from_left_to_right(
    boxes: Seq<BBox>,
    x: Seq<Ordinal>,
    y: Seq<Ordinal>,
    distance: spec_fn(int, int) -> Measure,
    by_height: Seq<usize>,
    a: int,
    b: int,
) -> (places: (int, int))
    requires
        boxes.len() == x.len() == y.len() == by_height.len() <= usize::MAX,
        forall|p: int| 0 <= p < by_height.len() ==> (#[trigger] by_height[p]) < y.len(),
        forall|p: int, q: int|
            0 <= p < q < by_height.len() ==> {
                let (u, v) = (#[trigger] by_height[p], #[trigger] by_height[q]);
                y[u as int] < y[v as int] || y[u as int] == y[v as int] && u < v
            },
        0 <= a < b < by_height.len(),
    ensures
        0 <= places.0 < reading_order(x, y, distance).len(),
        0 <= places.1 < reading_order(x, y, distance).len(),
        lines::chosen(boxes, reading_order(x, y, distance))[places.0] == boxes[by_height[a] as int],
        lines::chosen(boxes, reading_order(x, y, distance))[places.1] == boxes[by_height[b] as int],
        reading_order(x, y, distance)[places.0] == by_height[a],
        reading_order(x, y, distance)[places.1] == by_height[b],
        in_one_row(by_height, distance, a, b) ==> (places.0 < places.1 <==> x[by_height[a] as int]
            <= x[by_height[b] as int]),
        !in_one_row(by_height, distance, a, b) ==> places.0 < places.1,
{
    let keys = ordering::rising(y);
    assert(ordering::is_stable_order(by_height, keys)) by {
        assert forall|p: int, q: int| 0 <= p < q < by_height.len() implies ordering::comes_before(
            keys,
            #[trigger] by_height[p] as int,
            #[trigger] by_height[q] as int,
        ) by {
            let (u, v) = (by_height[p], by_height[q]);
            assert(y[u as int] < y[v as int] || y[u as int] == y[v as int] && u < v);
        }
        assert forall|p: int, q: int| 0 <= p < by_height.len() && 0 <= q < by_height.len() && p != q implies by_height[p]
            != by_height[q] by {
            if p < q {
                assert(ordering::comes_before(keys, by_height[p] as int, by_height[q] as int));
            } else {
                assert(ordering::comes_before(keys, by_height[q] as int, by_height[p] as int));
            }
        }
    }
    ordering::law_stable_order_exists(keys);
    ordering::law_stable_order_is_unique(by_height, ordering::sorted_positions(keys), keys);
    let cut = row_cut(distance);
    let n = by_height.len() as int;
    let all = rows(y, distance);
    let order = reading_order(x, y, distance);
    groups::lemma_runs_hold(by_height, n, cut, a);
    groups::lemma_runs_hold(by_height, n, cut, b);
    groups::lemma_run_of(by_height, cut, a, b);
    groups::lemma_run_of(by_height, cut, b, n - 1);
    groups::lemma_runs_are_short(by_height, n, cut);
    let (ra, rb) = (groups::run_of(by_height, cut, a), groups::run_of(by_height, cut, b));
    let (qa, qb) = (a - groups::run_start(by_height, cut, a), b - groups::run_start(by_height, cut, b));
    let at_a = lemma_place_in_row(all[ra], x, qa);
    let at_b = lemma_place_in_row(all[rb], x, qb);
    lemma_reading_at(all, x, ra, all.len() as int, at_a);
    lemma_reading_at(all, x, rb, all.len() as int, at_b);
    let (pa, pb) = (reading(all, x, ra).len() + at_a, reading(all, x, rb).len() + at_b);
    if in_one_row(by_height, distance, a, b) {
        assert forall|m: int| a <= m < b implies !#[trigger] cut(by_height[m] as int, by_height[m + 1] as int) by {
            assert(distance(by_height[m] as int, by_height[m + 1] as int) is Some);
        }
        assert(ra == rb);
        let row_keys = ordering::rising(groups::ordinals_of(all[ra], x));
        let sorted = ordering::sorted_positions(row_keys);
        if at_a < at_b {
            assert(ordering::comes_before(row_keys, sorted[at_a] as int, sorted[at_b] as int));
        } else if at_b < at_a {
            assert(ordering::comes_before(row_keys, sorted[at_b] as int, sorted[at_a] as int));
        }
    } else {
        let m = choose|m: int|
            a <= m < b && !((#[trigger] distance(by_height[m] as int, by_height[m + 1] as int)) matches Some(d) && d
                < 0x3CF5_C28F);
        assert(cut(by_height[m] as int, by_height[m + 1] as int));
        assert(ra < rb);
        lemma_reading_len(all, x, ra + 1, rb);
    }
    (pa, pb)
}

proof fn lemma_reading_len(all: Seq<Seq<usize>>, x: Seq<Ordinal>, k: int, n: int)
    requires
        0 <= k <= n,
    ensures
        reading(all, x, k).len() <= reading(all, x, n).len(),
    decreases n,
{
    if k < n {
        lemma_reading_len(all, x, k, n - 1);
    }
}

/// Sorted by their centres alone, lines come with rising heights, and those of one
/// height from left to right. Each line comes once.
pub proof fn law_simple_order_rises(x: Seq<Ordinal>, y: Seq<Ordinal>, p: int, q: int)
    requires
        x.len() == y.len() <= usize::MAX,
        0 <= p < q < y.len(),
    ensures
        ({
            let order = ordering::sorted_positions(Seq::new(y.len(), |i: int| ordering::paired_key(y[i], x[i])));
            let (a, b) = (order[p] as int, order[q] as int);
            &&& order.len() == y.len()
            &&& 0 <= a < y.len() && 0 <= b < y.len() && a != b
            &&& y[a] < y[b] || y[a] == y[b] && x[a] <= x[b]
        }),
{
    let keys = Seq::new(y.len(), |i: int| ordering::paired_key(y[i], x[i]));
    ordering::law_stable_order_exists(keys);
    let order = ordering::sorted_positions(keys);
    assert(ordering::comes_before(keys, order[p] as int, order[q] as int));
    let (a, b) = (order[p] as int, order[q] as int);
    ordering::law_paired_keys_order_pairs(y[a], x[a], y[b], x[b]);
}

/// Rows are three hundredths apart.
pub proof fn law_row_gap()
    ensures
        measure::is_nearest(ROW_GAP, 3, 100),
{
    vstd::arithmetic::power2::lemma2_to64();
    vstd::arithmetic::power2::lemma2_to64_rest();
}

} // verus!
