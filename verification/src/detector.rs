//! The text detector: its input image, its outputs, and the boxes in them.

use vstd::prelude::*;

use crate::bbox::BBox;
use crate::gray;
use crate::gray::Gray;
use crate::judge;
use crate::lines;
use crate::measure;
use crate::measure::Measure;
use crate::ordering;
use crate::ordering::Ordinal;
use crate::suppress;

verus! {

/// The ordinal of 0.3: boxes that are no more confident are not text.
pub const DETECTION_THRESHOLD: Ordinal = 0x3E99_999A;

/// The sides of the detector's input.
pub const TARGET_SIZE: u32 = 4096;

/// The ordinal of 0.3: boxes that overlap more than this are of one character.
pub const DETECTION_OVERLAP: Ordinal = 0x3E99_999A;

/// Outputs that have an anchor.
pub const ANCHORS: usize = 6;

/// Values for each place of an output.
pub const CHANNELS: usize = 7;

/// An output with fewer rows is too coarse: its places are more than two hundred
/// columns apart.
pub const LEAST_ROWS: usize = 21;

/// An output is a map of places with all their values.
pub open spec fn is_feature_map(dims: Seq<usize>) -> bool {
    dims.len() == 4 && dims[3] == CHANNELS
}

/// How many of the first `k` outputs are maps.
pub open spec fn maps_before(outputs: Seq<Vec<usize>>, k: int) -> nat
    decreases k,
{
    if k <= 0 {
        0
    } else {
        maps_before(outputs, k - 1) + (if is_feature_map(outputs[k - 1]@) {
            1nat
        } else {
            0
        })
    }
}

/// Of the first `k` outputs those that are read, each with its anchor: maps that
/// have one and are not too coarse.
pub open spec fn read_outputs(outputs: Seq<Vec<usize>>, k: int) -> Seq<(usize, usize)>
    decreases k,
{
    if k <= 0 {
        Seq::empty()
    } else {
        let before = read_outputs(outputs, k - 1);
        let anchor = maps_before(outputs, k - 1);
        if is_feature_map(outputs[k - 1]@) && anchor < ANCHORS && outputs[k - 1][1] >= LEAST_ROWS {
            before.push(((k - 1) as usize, anchor as usize))
        } else {
            before
        }
    }
}

/// Chooses the outputs to be read, each with its anchor.
pub fn select_outputs(outputs: &Vec<Vec<usize>>) -> (chosen: Vec<(usize, usize)>)
    ensures
        chosen@ == read_outputs(outputs@, outputs.len() as int),
{
    let mut chosen: Vec<(usize, usize)> = Vec::new();
    let mut anchor: usize = 0;
    let mut k: usize = 0;
    while k < outputs.len()
        invariant
            k <= outputs.len(),
            anchor <= k,
            anchor == maps_before(outputs@, k as int),
            chosen@ == read_outputs(outputs@, k as int),
        decreases outputs.len() - k,
    {
        let dims = &outputs[k];
        if dims.len() == 4 && dims[3] == CHANNELS {
            if anchor < ANCHORS && dims[1] >= LEAST_ROWS {
                chosen.push((k, anchor));
            }
            anchor = anchor + 1;
        }
        k = k + 1;
    }
    chosen
}

/// Each output that is read has an anchor of its own.
pub proof fn law_anchors_are_distinct(outputs: Seq<Vec<usize>>, k: int)
    requires
        0 <= k <= outputs.len() <= usize::MAX,
    ensures
        ({
            let read = read_outputs(outputs, k);
            &&& forall|p: int| 0 <= p < read.len() ==> (#[trigger] read[p]).0 < k && read[p].1 < ANCHORS && read[p].1
                < maps_before(outputs, k)
            &&& forall|p: int, q: int|
                0 <= p < q < read.len() ==> (#[trigger] read[p]).0 < (#[trigger] read[q]).0 && read[p].1 < read[q].1
        }),
    decreases k,
{
    if k > 0 {
        law_anchors_are_distinct(outputs, k - 1);
        let before = read_outputs(outputs, k - 1);
        let read = read_outputs(outputs, k);
        assert forall|p: int| 0 <= p < read.len() implies (#[trigger] read[p]).0 < k && read[p].1 < ANCHORS && read[p].1
            < maps_before(outputs, k) by {
            if p < before.len() {
                assert(read[p] == before[p]);
            }
        }
        assert forall|p: int, q: int| 0 <= p < q < read.len() implies (#[trigger] read[p]).0 < (#[trigger] read[q]).0
            && read[p].1 < read[q].1 by {
            assert(read[p] == before[p]);
            if q < before.len() {
                assert(read[q] == before[q]);
            }
        }
    }
}

/// The sizes of the inputs that have one: the second dimension of each of two or
/// more.
pub open spec fn sizes_of(inputs: Seq<Vec<usize>>, k: int) -> Seq<usize>
    decreases k,
{
    if k <= 0 {
        Seq::empty()
    } else if inputs[k - 1].len() >= 2 {
        sizes_of(inputs, k - 1).push(inputs[k - 1][1])
    } else {
        sizes_of(inputs, k - 1)
    }
}

/// The numbers ascend.
pub open spec fn ascends(s: Seq<usize>) -> bool {
    forall|p: int, q: int| 0 <= p < q < s.len() ==> #[trigger] s[p] <= #[trigger] s[q]
}

fn insert_sorted(sizes: &mut Vec<usize>, size: usize)
    requires
        ascends(old(sizes)@),
    ensures
        ascends(final(sizes)@),
        final(sizes)@.to_multiset() == old(sizes)@.to_multiset().insert(size),
{
    let ghost before = sizes@;
    let mut at: usize = sizes.len();
    while at > 0 && sizes[at - 1] > size
        invariant
            at <= sizes.len(),
            sizes@ == before,
            ascends(before),
            forall|p: int| at <= p < sizes.len() ==> #[trigger] before[p] > size,
        decreases at,
    {
        at = at - 1;
    }
    sizes.insert(at, size);
    proof {
        let after = sizes@;
        assert(after =~= before.insert(at as int, size));
        before.to_multiset_ensures();
        assert forall|p: int, q: int| 0 <= p < q < after.len() implies #[trigger] after[p] <= #[trigger] after[q] by {
            let x = if p < at {
                p
            } else {
                p - 1
            };
            let y = if q < at {
                q
            } else {
                q - 1
            };
            if p != at && q != at {
                assert(after[p] == before[x] && after[q] == before[y]);
            } else if p == at {
                assert(after[q] == before[y]);
            } else {
                assert(after[p] == before[x]);
                if at > 0 {
                    assert(before[x] <= before[at - 1]);
                }
            }
        }
        vstd::seq_lib::lemma_multiset_commutative(before.take(at as int), before.skip(at as int));
        assert(after =~= before.take(at as int).push(size) + before.skip(at as int));
        assert(before =~= before.take(at as int) + before.skip(at as int));
        vstd::seq_lib::lemma_multiset_commutative(before.take(at as int).push(size), before.skip(at as int));
        before.take(at as int).to_multiset_ensures();
        assert(after.to_multiset() =~= before.to_multiset().insert(size));
    }
}

/// The sizes of the detector's inputs, in ascending order.
pub fn input_sizes(inputs: &Vec<Vec<usize>>) -> (sizes: Vec<usize>)
    ensures
        ascends(sizes@),
        sizes@.to_multiset() == sizes_of(inputs@, inputs.len() as int).to_multiset(),
{
    let mut sizes: Vec<usize> = Vec::new();
    let mut k: usize = 0;
    while k < inputs.len()
        invariant
            k <= inputs.len(),
            ascends(sizes@),
            sizes@.to_multiset() == sizes_of(inputs@, k as int).to_multiset(),
        decreases inputs.len() - k,
    {
        if inputs[k].len() >= 2 {
            proof {
                sizes_of(inputs@, k as int).to_multiset_ensures();
            }
            let size = inputs[k][1];
            insert_sorted(&mut sizes, size);
        }
        k = k + 1;
    }
    sizes
}

/// The free columns or rows before an image of the given side.
pub open spec fn margin(side: u32) -> int {
    (TARGET_SIZE - side) / 2
}

/// The detector's input for a scaled image: the image on white, in the middle.
pub open spec fn centred(scaled: Seq<u8>, width: u32, height: u32) -> Seq<u8> {
    gray::overlay(
        Seq::new(gray::area(TARGET_SIZE, TARGET_SIZE) as nat, |i: int| 255u8),
        TARGET_SIZE as int,
        scaled,
        width as int,
        height as int,
        margin(width),
        margin(height),
    )
}

/// Lays a scaled image on white, in the middle of the detector's input.
pub fn centre(scaled: &Gray) -> (canvas: Gray)
    requires
        scaled.wf(),
        scaled.width() <= TARGET_SIZE,
        scaled.height() <= TARGET_SIZE,
    ensures
        canvas.wf(),
        canvas.width() == TARGET_SIZE,
        canvas.height() == TARGET_SIZE,
        canvas.pixels() == centred(scaled.pixels(), scaled.width(), scaled.height()),
{
    let x: u32 = (TARGET_SIZE - scaled.columns()) / 2;
    let y: u32 = (TARGET_SIZE - scaled.rows()) / 2;
    let white = Gray::filled(TARGET_SIZE, TARGET_SIZE, 255);
    white.with_overlay(scaled, x, y)
}

/// Scales an image to `new_width` by `new_height` and lays it in the middle of
/// the detector's input. What is laid there is what the filter makes of the image;
/// an image that has its size already is laid there as it is.
pub fn preprocess(img: &Gray, new_width: u32, new_height: u32) -> (canvas: Gray)
    requires
        img.wf(),
        new_width <= TARGET_SIZE,
        new_height <= TARGET_SIZE,
        gray::can_scale(img.width(), img.height(), new_width, new_height),
    ensures
        canvas.wf(),
        canvas.width() == TARGET_SIZE,
        canvas.height() == TARGET_SIZE,
        exists|s: Gray| #[trigger]
            call_ensures(Gray::scaled_sharply, (img, new_width, new_height), s) && canvas.pixels() == centred(
                s.pixels(),
                new_width,
                new_height,
            ),
        exists|scaled: Seq<u8>| #[trigger]
            gray::lanczos_gives(img.pixels(), img.width(), img.height(), new_width, new_height, scaled)
                && canvas.pixels() == centred(scaled, new_width, new_height) && scaled.len() == gray::area(
                new_width,
                new_height,
            ) && (new_width == img.width() && new_height == img.height() ==> scaled == img.pixels()),
{
    let scaled = img.scaled_sharply(new_width, new_height);
    let canvas = centre(&scaled);
    assert(canvas.pixels() == centred(scaled.pixels(), new_width, new_height));
    canvas
}

/// What an output tells of a place: the confidence, the centre of the box, and the
/// box.
#[derive(Clone, Copy)]
pub struct Cell {
    pub conf: Measure,
    pub cx: Measure,
    pub cy: Measure,
    pub found: BBox,
}

/// Where the content of the detector's input lies.
#[derive(Clone, Copy)]
pub struct Content {
    pub left: Measure,
    pub right: Measure,
    pub top: Measure,
    pub bottom: Measure,
}

/// A place shows text: its confidence is above the threshold, and the centre of
/// its box lies in the content.
pub open spec fn shows_text(cell: Cell, threshold: Measure, content: Content) -> bool {
    &&& measure::exceeds(cell.conf, threshold)
    &&& measure::exceeds(cell.cx, content.left)
    &&& measure::exceeds(content.right, cell.cx)
    &&& measure::exceeds(cell.cy, content.top)
    &&& measure::exceeds(content.bottom, cell.cy)
}

/// What an output tells of each place, by the index of its first value, its
/// column and its row.
pub type Reading = spec_fn(int, int, int) -> Cell;

/// The reader may be asked about every place of a map.
pub open spec fn cell_callable<F: Fn(usize, usize, usize) -> Cell>(reader: F, rows: usize, columns: usize) -> bool {
    forall|at: usize, x: usize, y: usize|
        x < columns && y < rows && at == (y * columns + x) * CHANNELS ==> #[trigger] call_requires(reader, (at, x, y))
}

/// The reader reads as `reading` says.
pub open spec fn reads<F: Fn(usize, usize, usize) -> Cell>(reader: F, reading: Reading) -> bool {
    forall|at: usize, x: usize, y: usize, c: Cell| #[trigger]
        call_ensures(reader, (at, x, y), c) ==> c == reading(at as int, x as int, y as int)
}

/// The boxes in the first `k` places of a map, row by row.
pub open spec fn boxes_in(reading: Reading, columns: int, threshold: Measure, content: Content, k: int) -> Seq<BBox>
    decreases k,
{
    if k <= 0 {
        Seq::empty()
    } else {
        let before = boxes_in(reading, columns, threshold, content, k - 1);
        let cell = reading((k - 1) * CHANNELS, (k - 1) % columns, (k - 1) / columns);
        if shows_text(cell, threshold, content) {
            before.push(cell.found)
        } else {
            before
        }
    }
}

fn keeps(cell: Cell, threshold: Measure, content: Content) -> (yes: bool)
    ensures
        yes == shows_text(cell, threshold, content),
{
    measure::is_above(cell.conf, threshold) && measure::is_above(cell.cx, content.left) && measure::is_above(
        content.right,
        cell.cx,
    ) && measure::is_above(cell.cy, content.top) && measure::is_above(content.bottom, cell.cy)
}

/// Collects the boxes of a map of `rows` by `columns` places.
pub fn collect_boxes<F: Fn(usize, usize, usize) -> Cell>(
    rows: usize,
    columns: usize,
    threshold: Measure,
    content: Content,
    reader: F,
) -> (boxes: Vec<BBox>)
    requires
        rows * columns * CHANNELS <= usize::MAX,
        cell_callable(reader, rows, columns),
    ensures
        forall|reading: Reading| #[trigger]
            reads(reader, reading) ==> boxes@ == boxes_in(
                reading,
                columns as int,
                threshold,
                content,
                rows * columns,
            ),
{
    let mut boxes: Vec<BBox> = Vec::new();
    let mut place: usize = 0;
    let mut y: usize = 0;
    assert(0 * columns == 0) by (nonlinear_arith);
    while y < rows
        invariant
            y <= rows,
            place == y * columns,
            rows * columns * CHANNELS <= usize::MAX,
            cell_callable(reader, rows, columns),
            forall|reading: Reading| #[trigger]
                reads(reader, reading) ==> boxes@ == boxes_in(reading, columns as int, threshold, content, place as int),
        decreases rows - y,
    {
        let mut x: usize = 0;
        while x < columns
            invariant
                x <= columns,
                y < rows,
                place == y * columns + x,
                rows * columns * CHANNELS <= usize::MAX,
                cell_callable(reader, rows, columns),
                forall|reading: Reading| #[trigger]
                    reads(reader, reading) ==> boxes@ == boxes_in(
                        reading,
                        columns as int,
                        threshold,
                        content,
                        place as int,
                    ),
            decreases columns - x,
        {
            proof {
                assert(y * columns + x + 1 <= rows * columns) by (nonlinear_arith)
                    requires
                        x < columns,
                        y < rows,
                ;
                vstd::arithmetic::div_mod::lemma_fundamental_div_mod_converse(
                    y * columns + x,
                    columns as int,
                    y as int,
                    x as int,
                );
            }
            let cell = reader(place * CHANNELS, x, y);
            if keeps(cell, threshold, content) {
                boxes.push(cell.found);
            }
            place = place + 1;
            x = x + 1;
        }
        assert(y * columns + columns == (y + 1) * columns) by (nonlinear_arith);
        y = y + 1;
    }
    boxes
}

/// The measurer may be asked about every two boxes.
pub open spec fn iou_callable<F: Fn(&BBox, &BBox) -> Measure>(measurer: F) -> bool {
    forall|a: &BBox, b: &BBox| #[trigger] call_requires(measurer, (a, b))
}

/// The measurer measures as `iou` says.
pub open spec fn measures_iou<F: Fn(&BBox, &BBox) -> Measure>(
    measurer: F,
    iou: spec_fn(BBox, BBox) -> Measure,
) -> bool {
    forall|a: &BBox, b: &BBox, r: Measure| #[trigger] call_ensures(measurer, (a, b), r) ==> r == iou(*a, *b)
}

/// Box `i` overlaps box `j` above the threshold.
pub open spec fn overlapping(
    boxes: Seq<BBox>,
    iou: spec_fn(BBox, BBox) -> Measure,
    threshold: Ordinal,
) -> spec_fn(int, int) -> bool {
    |i: int, j: int| measure::exceeds(iou(boxes[j], boxes[i]), Some(threshold))
}

/// The confidences of boxes.
pub open spec fn confidences(boxes: Seq<BBox>) -> Seq<Ordinal> {
    Seq::new(boxes.len(), |p: int| boxes[p].conf)
}

/// Of boxes taken from the most confident down, keeps those that none kept before
/// overlaps too much.
pub fn suppress_detections<F: Fn(&BBox, &BBox) -> Measure>(boxes: &Vec<BBox>, threshold: Ordinal, measurer: F) -> (kept: Vec<
    BBox,
>)
    requires
        iou_callable(measurer),
    ensures
        forall|iou: spec_fn(BBox, BBox) -> Measure| #[trigger]
            measures_iou(measurer, iou) ==> kept@ == lines::chosen(
                boxes@,
                suppress::survivors(
                    ordering::sorted_positions(ordering::falling(confidences(boxes@))),
                    boxes.len() as int,
                    overlapping(boxes@, iou, threshold),
                ),
            ),
{
    let mut confs: Vec<Ordinal> = Vec::new();
    while confs.len() < boxes.len()
        invariant
            confs.len() <= boxes.len(),
            forall|p: int| 0 <= p < confs.len() ==> #[trigger] confs[p] == boxes[p].conf,
        decreases boxes.len() - confs.len(),
    {
        confs.push(boxes[confs.len()].conf);
    }
    assert(confs@ =~= confidences(boxes@));
    let order = ordering::order_falling(&confs);
    let n: usize = boxes.len();
    let measure = &measurer;
    let overlaps = |i: usize, j: usize| -> (r: bool)
        requires
            i < boxes.len(),
            j < boxes.len(),
        ensures
            exists|m: Measure| #[trigger]
                call_ensures(*measure, (&boxes[j as int], &boxes[i as int]), m) && r == measure::exceeds(
                    m,
                    Some(threshold),
                ),
        {
            let m = measure(&boxes[j], &boxes[i]);
            measure::is_above(m, Some(threshold))
        };
    let places = suppress::suppress(&order, n, overlaps);
    let mut kept: Vec<BBox> = Vec::new();
    let mut p: usize = 0;
    while p < places.len()
        invariant
            p <= places.len(),
            forall|q: int| 0 <= q < places.len() ==> (#[trigger] places[q]) < boxes.len(),
            kept.len() == p,
            forall|q: int| 0 <= q < p ==> #[trigger] kept[q] == boxes[places[q] as int],
        decreases places.len() - p,
    {
        kept.push(boxes[places[p]]);
        p = p + 1;
    }
    assert(kept@ =~= lines::chosen(boxes@, places@));
    proof {
        assert forall|iou: spec_fn(BBox, BBox) -> Measure| #[trigger] measures_iou(measurer, iou) implies places@
            == suppress::survivors(order@, boxes.len() as int, overlapping(boxes@, iou, threshold)) by {
            assert(judge::decides(overlaps, overlapping(boxes@, iou, threshold)));
        }
    }
    kept
}

proof fn lemma_maps_before(outputs: Seq<Vec<usize>>, k: int)
    requires
        0 <= k <= outputs.len(),
    ensures
        Set::new(|j: int| 0 <= j < k && outputs[j].len() == 4 && outputs[j][3] == 7).finite(),
        Set::new(|j: int| 0 <= j < k && outputs[j].len() == 4 && outputs[j][3] == 7).len() == maps_before(outputs, k),
    decreases k,
{
    let all = Set::new(|j: int| 0 <= j < k && outputs[j].len() == 4 && outputs[j][3] == 7);
    if k <= 0 {
        assert(all =~= Set::empty());
    } else {
        lemma_maps_before(outputs, k - 1);
        let fewer = Set::new(|j: int| 0 <= j < k - 1 && outputs[j].len() == 4 && outputs[j][3] == 7);
        if outputs[k - 1].len() == 4 && outputs[k - 1][3] == 7 {
            assert(all =~= fewer.insert(k - 1));
        } else {
            assert(all =~= fewer);
        }
    }
}

proof fn lemma_read_outputs_contain(outputs: Seq<Vec<usize>>, k: int, n: int)
    requires
        0 <= k < n <= outputs.len() <= usize::MAX,
    ensures
        (exists|p: int| 0 <= p < read_outputs(outputs, n).len() && (#[trigger] read_outputs(outputs, n)[p]).0 == k) <==> (
        is_feature_map(outputs[k]@) && maps_before(outputs, k) < ANCHORS && outputs[k][1] >= LEAST_ROWS),
        forall|p: int|
            0 <= p < read_outputs(outputs, n).len() && (#[trigger] read_outputs(outputs, n)[p]).0 == k ==> read_outputs(
                outputs,
                n,
            )[p].1 == maps_before(outputs, k),
    decreases n,
{
    law_anchors_are_distinct(outputs, n - 1);
    let before = read_outputs(outputs, n - 1);
    let after = read_outputs(outputs, n);
    if k < n - 1 {
        lemma_read_outputs_contain(outputs, k, n - 1);
        if exists|p: int| 0 <= p < before.len() && (#[trigger] before[p]).0 == k {
            let p = choose|p: int| 0 <= p < before.len() && (#[trigger] before[p]).0 == k;
            assert(after[p].0 == k);
        }
        if exists|p: int| 0 <= p < after.len() && (#[trigger] after[p]).0 == k {
            let p = choose|p: int| 0 <= p < after.len() && (#[trigger] after[p]).0 == k;
            assert(before[p].0 == k);
        }
        assert forall|p: int| 0 <= p < after.len() && (#[trigger] after[p]).0 == k implies after[p].1 == maps_before(
            outputs,
            k,
        ) by {
            assert(before[p].0 == k);
        }
    } else {
        if is_feature_map(outputs[k]@) && maps_before(outputs, k) < ANCHORS && outputs[k][1] >= LEAST_ROWS {
            assert(after[before.len() as int].0 == k);
        }
        assert forall|p: int| 0 <= p < after.len() && (#[trigger] after[p]).0 == k implies p == before.len() by {
            if p < before.len() {
                assert(before[p].0 < k);
            }
        }
    }
}

/// Which outputs are read: those of four dimensions with seven values for each
/// place and at least 21 rows, if fewer than six such maps of any size come before
/// them; and the anchor of each is the number of those maps.
pub proof fn law_first_maps_are_read(outputs: Seq<Vec<usize>>, k: int, anchor: usize)
    requires
        0 <= k < outputs.len() <= usize::MAX,
    ensures
        ({
            let maps = Set::new(|j: int| 0 <= j < k && outputs[j].len() == 4 && outputs[j][3] == 7);
            read_outputs(outputs, outputs.len() as int).contains((k as usize, anchor)) <==> (outputs[k].len() == 4
                && outputs[k][3] == 7 && outputs[k][1] >= 21 && maps.len() == anchor && anchor < 6)
        }),
{
    let n = outputs.len() as int;
    let read = read_outputs(outputs, n);
    lemma_maps_before(outputs, k);
    lemma_read_outputs_contain(outputs, k, n);
    if read.contains((k as usize, anchor)) {
        let p = choose|p: int| 0 <= p < read.len() && read[p] == (k as usize, anchor);
        assert(read[p].0 == k);
    }
    if is_feature_map(outputs[k]@) && maps_before(outputs, k) < ANCHORS && outputs[k][1] >= LEAST_ROWS
        && maps_before(outputs, k) == anchor {
        let p = choose|p: int| 0 <= p < read.len() && (#[trigger] read[p]).0 == k;
        assert(read[p] == (k as usize, anchor));
    }
}

/// A size is listed as often as there are inputs of two or more dimensions whose
/// second is that size.
pub proof fn law_sizes_are_those_of_inputs(inputs: Seq<Vec<usize>>, k: int, size: usize)
    requires
        0 <= k <= inputs.len(),
    ensures
        Set::new(|j: int| 0 <= j < k && inputs[j].len() >= 2 && inputs[j][1] == size).finite(),
        sizes_of(inputs, k).to_multiset().count(size) == Set::new(
            |j: int| 0 <= j < k && inputs[j].len() >= 2 && inputs[j][1] == size,
        ).len(),
    decreases k,
{
    let all = Set::new(|j: int| 0 <= j < k && inputs[j].len() >= 2 && inputs[j][1] == size);
    if k <= 0 {
        assert(all =~= Set::empty());
        sizes_of(inputs, k).to_multiset_ensures();
    } else {
        law_sizes_are_those_of_inputs(inputs, k - 1, size);
        let fewer = Set::new(|j: int| 0 <= j < k - 1 && inputs[j].len() >= 2 && inputs[j][1] == size);
        sizes_of(inputs, k - 1).to_multiset_ensures();
        if inputs[k - 1].len() >= 2 && inputs[k - 1][1] == size {
            assert(all =~= fewer.insert(k - 1));
        } else {
            assert(all =~= fewer);
        }
    }
}

/// The detector's input has the scaled image in the middle, as much to its left as
/// to its right and as much above as below, or one less; all else is white.
pub proof fn law_image_is_in_the_middle(canvas: Gray, scaled: Gray, x: int, y: int)
    requires
        scaled.wf(),
        canvas.width() == 4096,
        canvas.height() == 4096,
        scaled.width() <= 4096,
        scaled.height() <= 4096,
        canvas.pixels() == centred(scaled.pixels(), scaled.width(), scaled.height()),
        0 <= x < 4096,
        0 <= y < 4096,
    ensures
        ({
            let left = (4096 - scaled.width()) / 2;
            let top = (4096 - scaled.height()) / 2;
            canvas.at(x, y) == if left <= x < left + scaled.width() && top <= y < top + scaled.height() {
                scaled.at(x - left, y - top)
            } else {
                255u8
            }
        }),
{
    gray::lemma_index(4096, 4096, x, y);
}

/// A map's boxes are those of the places that show text, row by row: where the
/// confidence is above the threshold, and the centre lies right of the content's
/// left edge, left of its right one, below its top and above its bottom.
pub proof fn law_places_with_text_give_boxes(
    reading: Reading,
    columns: int,
    threshold: Ordinal,
    content: (Ordinal, Ordinal, Ordinal, Ordinal),
    k: int,
    place: int,
) -> (at: int)
    requires
        0 < columns,
        0 <= place < k,
        ({
            let cell = reading(place * 7, place % columns, place / columns);
            &&& cell.conf matches Some(conf) && conf > threshold
            &&& cell.cx matches Some(cx) && content.0 < cx < content.1
            &&& cell.cy matches Some(cy) && content.2 < cy < content.3
        }),
    ensures
        ({
            let edges = Content {
                left: Some(content.0),
                right: Some(content.1),
                top: Some(content.2),
                bottom: Some(content.3),
            };
            let boxes = boxes_in(reading, columns, Some(threshold), edges, k);
            &&& 0 <= at < boxes.len()
            &&& boxes[at] == reading(place * 7, place % columns, place / columns).found
            &&& at == boxes_in(reading, columns, Some(threshold), edges, place).len()
        }),
    decreases k,
{
    let edges = Content {
        left: Some(content.0),
        right: Some(content.1),
        top: Some(content.2),
        bottom: Some(content.3),
    };
    if place < k - 1 {
        law_places_with_text_give_boxes(reading, columns, threshold, content, k - 1, place)
    } else {
        boxes_in(reading, columns, Some(threshold), edges, place).len() as int
    }
}

/// Nothing but the places that show text gives a box: each box is that of one, a
/// later box that of a later one.
pub proof fn law_boxes_come_from_places_with_text(
    reading: Reading,
    columns: int,
    threshold: Measure,
    content: Content,
    k: int,
    p: int,
) -> (place: int)
    requires
        0 < columns,
        0 <= p < boxes_in(reading, columns, threshold, content, k).len(),
    ensures
        0 <= place < k,
        boxes_in(reading, columns, threshold, content, place).len() == p,
        ({
            let cell = reading(place * 7, place % columns, place / columns);
            &&& boxes_in(reading, columns, threshold, content, k)[p] == cell.found
            &&& cell.conf is Some && threshold is Some && cell.conf->0 > threshold->0
            &&& cell.cx is Some && content.left is Some && content.left->0 < cell.cx->0
            &&& content.right is Some && cell.cx->0 < content.right->0
            &&& cell.cy is Some && content.top is Some && content.top->0 < cell.cy->0
            &&& content.bottom is Some && cell.cy->0 < content.bottom->0
        }),
    decreases k,
{
    let before = boxes_in(reading, columns, threshold, content, k - 1);
    if p < before.len() {
        law_boxes_come_from_places_with_text(reading, columns, threshold, content, k - 1, p)
    } else {
        k - 1
    }
}

/// What suppression leaves of detected boxes: they come from the most confident
/// down; none overlaps a more confident one of them above the threshold; and every
/// box is left, or overlaps above the threshold one that is left and no less
/// confident.
pub proof fn law_detections_are_settled(boxes: Seq<BBox>, iou: spec_fn(BBox, BBox) -> Measure, threshold: Ordinal)
    requires
        boxes.len() <= usize::MAX,
    ensures
        ({
            let kept = lines::chosen(
                boxes,
                suppress::survivors(
                    ordering::sorted_positions(ordering::falling(confidences(boxes))),
                    boxes.len() as int,
                    overlapping(boxes, iou, threshold),
                ),
            );
            &&& forall|p: int, q: int|
                0 <= p < q < kept.len() ==> (#[trigger] kept[p]).conf >= (#[trigger] kept[q]).conf && !(iou(
                    kept[q],
                    kept[p],
                ) matches Some(v) && v > threshold)
            &&& forall|j: int|
                0 <= j < boxes.len() ==> kept.contains(#[trigger] boxes[j]) || exists|p: int|
                    0 <= p < kept.len() && (#[trigger] kept[p]).conf >= boxes[j].conf && (iou(boxes[j], kept[p]) matches Some(
                        v,
                    ) && v > threshold)
            &&& forall|p: int| 0 <= p < kept.len() ==> boxes.contains(#[trigger] kept[p])
        }),
{
    let keys = ordering::falling(confidences(boxes));
    let order = ordering::sorted_positions(keys);
    ordering::law_stable_order_exists(keys);
    let rel = overlapping(boxes, iou, threshold);
    let places = suppress::survivors(order, boxes.len() as int, rel);
    let kept = lines::chosen(boxes, places);
    assert forall|p: int, q: int| 0 <= p < q < kept.len() implies (#[trigger] kept[p]).conf >= (#[trigger] kept[q]).conf
        && !(iou(kept[q], kept[p]) matches Some(v) && v > threshold) by {
        suppress::law_survivors_are_free(order, rel, p, q);
        let (a, b) = suppress::law_survivors_keep_order(order, rel, p, q);
        assert(ordering::comes_before(keys, order[a] as int, order[b] as int));
        assert(keys[order[a] as int] == -(boxes[order[a] as int].conf as i64));
        assert(keys[order[b] as int] == -(boxes[order[b] as int].conf as i64));
    }
    assert forall|j: int| 0 <= j < boxes.len() implies kept.contains(#[trigger] boxes[j]) || exists|p: int|
        0 <= p < kept.len() && (#[trigger] kept[p]).conf >= boxes[j].conf && (iou(boxes[j], kept[p]) matches Some(v) && v
            > threshold) by {
        ordering::law_permutation_covers(order, keys.len(), j);
        let k = choose|k: int| 0 <= k < order.len() && #[trigger] order[k] == j;
        if places.contains(j as usize) {
            let q = choose|q: int| 0 <= q < places.len() && places[q] == j as usize;
            assert(kept[q] == boxes[j]);
        } else {
            let (p, a) = suppress::law_dropped_are_dominated_earlier(order, rel, k);
            assert(kept[p] == boxes[places[p] as int]);
            assert(ordering::comes_before(keys, order[a] as int, order[k] as int));
            assert(keys[order[a] as int] == -(boxes[order[a] as int].conf as i64));
            assert(keys[j] == -(boxes[j].conf as i64));
        }
    }
    assert forall|p: int| 0 <= p < kept.len() implies boxes.contains(#[trigger] kept[p]) by {
        suppress::law_survivors_are_items(order, rel, p);
        assert(kept[p] == boxes[places[p] as int]);
        assert(order.contains(places[p]));
    }
}

/// Boxes are detected at confidences above three tenths, and may overlap by three
/// tenths.
pub proof fn law_detection_limits()
    ensures
        measure::is_nearest(DETECTION_THRESHOLD, 3, 10),
        measure::is_nearest(DETECTION_OVERLAP, 3, 10),
{
    vstd::arithmetic::power2::lemma2_to64();
}

} // verus!
