//! The regions of an image that lines of text are read from.

use vstd::prelude::*;

use crate::gray;
use crate::gray::Gray;
use crate::judge;
use crate::multiline;
use crate::ordering;
use crate::ordering::Ordinal;
use crate::rules;
use crate::rules::Overlap;
use crate::suppress;

verus! {

/// A lower line is given more rows if it is wide enough.
pub const MIN_HEIGHT: u32 = 20;

/// Only a wider line is given more rows.
pub const WIDE: u32 = 40;

/// A frame with a shorter side is dropped.
pub const LEAST_SIDE: u32 = 3;

/// A part of an image: columns from `x1` up to `x2`, rows from `y1` up to `y2`.
#[derive(Clone, Copy, Debug, PartialEq, Eq, Structural)]
pub struct Frame {
    pub x1: u32,
    pub y1: u32,
    pub x2: u32,
    pub y2: u32,
}

/// The larger of two numbers.
pub open spec fn at_least(a: int, least: int) -> int {
    if a < least {
        least
    } else {
        a
    }
}

/// The smaller of two numbers.
pub open spec fn at_most(a: int, most: int) -> int {
    if a > most {
        most
    } else {
        a
    }
}

/// The rows added above and below a line of the given height.
pub open spec fn extra_rows(height: int) -> int {
    (MIN_HEIGHT - height) / 2 + 3
}

impl Frame {
    /// The frame lies in an image.
    pub open spec fn within(self, width: u32, height: u32) -> bool {
        self.x1 <= self.x2 <= width && self.y1 <= self.y2 <= height
    }
}

/// The frame has the given edges.
pub open spec fn has_edges(frame: Frame, x1: int, y1: int, x2: int, y2: int) -> bool {
    frame.x1 == x1 && frame.y1 == y1 && frame.x2 == x2 && frame.y2 == y2
}

/// The frame of a line: its box, padded, within the image; `None` if a side is
/// too short. A low and wide line is given more rows.
pub open spec fn is_framed(
    frame: Option<Frame>,
    x1: int,
    y1: int,
    x2: int,
    y2: int,
    pad_x: int,
    pad_y: int,
    width: int,
    height: int,
) -> bool {
    let left = at_least(x1 - pad_x, 0);
    let top = at_least(y1 - pad_y, 0);
    let right = at_most(x2 + pad_x, width);
    let bottom = at_most(y2 + pad_y, height);
    if right - left < LEAST_SIDE || bottom - top < LEAST_SIDE {
        frame is None
    } else if bottom - top < MIN_HEIGHT && right - left > WIDE {
        let extra = extra_rows(bottom - top);
        frame matches Some(f) && has_edges(f, left, at_least(top - extra, 0), right, at_most(bottom + extra, height))
    } else {
        frame matches Some(f) && has_edges(f, left, top, right, bottom)
    }
}

/// Frames a line's box: pads it, keeps it within the image, and drops it if it
/// is too small.
pub fn frame_line(
    x1: i32,
    y1: i32,
    x2: i32,
    y2: i32,
    pad_x: u32,
    pad_y: u32,
    width: u32,
    height: u32,
) -> (frame: Option<Frame>)
    ensures
        is_framed(
            frame,
            x1 as int,
            y1 as int,
            x2 as int,
            y2 as int,
            pad_x as int,
            pad_y as int,
            width as int,
            height as int,
        ),
        frame matches Some(f) ==> f.within(width, height) && f.x2 - f.x1 >= LEAST_SIDE && f.y2 - f.y1 >= LEAST_SIDE,
{
    let left: i64 = floor_at(x1 as i64 - pad_x as i64, 0);
    let top: i64 = floor_at(y1 as i64 - pad_y as i64, 0);
    let right: i64 = cap_at(x2 as i64 + pad_x as i64, width as i64);
    let bottom: i64 = cap_at(y2 as i64 + pad_y as i64, height as i64);
    if right - left < LEAST_SIDE as i64 || bottom - top < LEAST_SIDE as i64 {
        return None;
    }
    if bottom - top < MIN_HEIGHT as i64 && right - left > WIDE as i64 {
        let extra: i64 = (MIN_HEIGHT as i64 - (bottom - top)) / 2 + 3;
        return Some(
            Frame {
                x1: left as u32,
                y1: floor_at(top - extra, 0) as u32,
                x2: right as u32,
                y2: cap_at(bottom + extra, height as i64) as u32,
            },
        );
    }
    Some(Frame { x1: left as u32, y1: top as u32, x2: right as u32, y2: bottom as u32 })
}

fn floor_at(a: i64, least: i64) -> (r: i64)
    ensures
        r == at_least(a as int, least as int),
{
    if a < least {
        least
    } else {
        a
    }
}

fn cap_at(a: i64, most: i64) -> (r: i64)
    ensures
        r == at_most(a as int, most as int),
{
    if a > most {
        most
    } else {
        a
    }
}

impl Frame {
    /// The frame with padding, within the image.
    pub fn padded(&self, pad_x: u32, pad_y: u32, width: u32, height: u32) -> (frame: Frame)
        requires
            self.within(width, height),
        ensures
            has_edges(
                frame,
                at_least(self.x1 - pad_x, 0),
                at_least(self.y1 - pad_y, 0),
                at_most(self.x2 + pad_x, width as int),
                at_most(self.y2 + pad_y, height as int),
            ),
            frame.within(width, height),
            frame.x1 <= self.x1 && self.x2 <= frame.x2 && frame.y1 <= self.y1 && self.y2 <= frame.y2,
    {
        Frame {
            x1: floor_at(self.x1 as i64 - pad_x as i64, 0) as u32,
            y1: floor_at(self.y1 as i64 - pad_y as i64, 0) as u32,
            x2: cap_at(self.x2 as i64 + pad_x as i64, width as i64) as u32,
            y2: cap_at(self.y2 as i64 + pad_y as i64, height as i64) as u32,
        }
    }

    /// The part of the image in the frame.
    pub fn cut(&self, img: &Gray) -> (part: Gray)
        requires
            img.wf(),
            self.within(img.width(), img.height()),
        ensures
            part.wf(),
            part.width() == self.x2 - self.x1,
            part.height() == self.y2 - self.y1,
            part.pixels() == gray::crop(
                img.pixels(),
                img.width() as int,
                self.x1 as int,
                self.y1 as int,
                self.x2 - self.x1,
                self.y2 - self.y1,
            ),
    {
        img.part(self.x1, self.y1, self.x2 - self.x1, self.y2 - self.y1)
    }

    /// A turned image is cut to this frame only if that is more than ten columns
    /// and more than five rows.
    pub open spec fn is_worth_cutting(self) -> bool {
        self.x2 > self.x1 + 10 && self.y2 > self.y1 + 5
    }

    /// Cuts a turned image to this frame, if it is worth that.
    pub fn cut_turned(&self, turned: Gray) -> (part: Gray)
        requires
            turned.wf(),
            self.x2 <= turned.width(),
            self.y2 <= turned.height(),
        ensures
            part.wf(),
            self.is_worth_cutting() ==> part.width() == self.x2 - self.x1 && part.height() == self.y2 - self.y1
                && part.pixels() == gray::crop(
                turned.pixels(),
                turned.width() as int,
                self.x1 as int,
                self.y1 as int,
                self.x2 - self.x1,
                self.y2 - self.y1,
            ),
            !self.is_worth_cutting() ==> part == turned,
    {
        if self.x2 as u64 > self.x1 as u64 + 10 && self.y2 as u64 > self.y1 as u64 + 5 {
            self.cut(&turned)
        } else {
            turned
        }
    }
}

/// A region to be read: its pixels, and where the line is reported.
pub struct LineRegion {
    pub img: Gray,
    pub place: LineBox,
}

/// Where a line is reported: its corner and its size.
#[derive(Clone, Copy, Debug, PartialEq, Eq, Structural)]
pub struct LineBox {
    pub x: i64,
    pub y: i64,
    pub width: u32,
    pub height: u32,
}

/// Where the strip `rows` of a region that is `width` wide is reported; the
/// region's corner is `(x, y)`. A low and wide strip is given more rows.
pub open spec fn strip_place(x: int, y: int, rows: (int, int), width: int, image_height: int) -> (int, int, int, int) {
    let top = y + rows.0;
    let height = rows.1 - rows.0;
    if height < MIN_HEIGHT && width > WIDE {
        let extra = extra_rows(height);
        let from = at_least(top - extra, 0);
        (x, from, width, at_least(at_most(top + height + extra, image_height) - from, 0))
    } else {
        (x, top, width, height)
    }
}

/// A strip is read again from the image when it is given more rows.
pub open spec fn is_regrown(rows: (int, int), width: int) -> bool {
    rows.1 - rows.0 < MIN_HEIGHT && width > WIDE
}

/// `r` is the region for the strip `rows` of `region`, the line's frame in `img`
/// being `frame`.
pub open spec fn is_line_region(r: LineRegion, img: Gray, frame: Frame, region: Gray, rows: (int, int)) -> bool {
    let place = strip_place(frame.x1 as int, frame.y1 as int, rows, region.width() as int, img.height() as int);
    &&& r.img.wf()
    &&& r.place.x == place.0
    &&& r.place.y == place.1
    &&& r.place.width == place.2
    &&& r.place.height == place.3
    &&& if is_regrown(rows, region.width() as int) {
        let from = at_most(place.1, img.height() as int);
        &&& r.img.width() == frame.x2 - frame.x1
        &&& r.img.height() == place.3
        &&& r.img.pixels() == gray::crop(
            img.pixels(),
            img.width() as int,
            frame.x1 as int,
            from,
            frame.x2 - frame.x1,
            place.3,
        )
    } else {
        &&& r.img.width() == region.width()
        &&& r.img.height() == rows.1 - rows.0
        &&& r.img.pixels() == gray::crop(
            region.pixels(),
            region.width() as int,
            0,
            rows.0,
            region.width() as int,
            rows.1 - rows.0,
        )
    }
}

/// Cuts a line's region into the regions of its single lines. A low and wide one
/// is read from the image again with more rows.
pub fn line_regions(img: &Gray, frame: Frame, region: &Gray) -> (regions: Vec<LineRegion>)
    requires
        img.wf(),
        region.wf(),
        frame.within(img.width(), img.height()),
    ensures
        regions.len() == multiline::strips(*region).len(),
        forall|p: int|
            0 <= p < regions.len() ==> is_line_region(
                #[trigger] regions[p],
                *img,
                frame,
                *region,
                multiline::strips(*region)[p],
            ),
{
    let mut parts = multiline::split_multiline_region(region);
    let ghost rows = multiline::strips(*region);
    let ghost all = parts@;
    let width = region.columns();
    let image_height = img.rows();
    let mut regions: Vec<LineRegion> = Vec::new();
    while parts.len() > 0
        invariant
            img.wf(),
            region.wf(),
            frame.within(img.width(), img.height()),
            width == region.width(),
            image_height == img.height(),
            rows == multiline::strips(*region),
            all.len() == rows.len(),
            forall|p: int| 0 <= p < all.len() ==> multiline::is_strip((#[trigger] all[p]).0, all[p].1, *region, rows[p]),
            regions.len() + parts.len() == all.len(),
            parts@ == all.skip(regions.len() as int),
            forall|p: int|
                0 <= p < regions.len() ==> is_line_region(#[trigger] regions[p], *img, frame, *region, rows[p]),
        decreases parts.len(),
    {
        let ghost k = regions.len() as int;
        let (part, offset) = parts.remove(0);
        assert((part, offset) == all[k]);
        assert(parts@ =~= all.skip(k + 1));
        assert(multiline::is_strip(all[k].0, all[k].1, *region, rows[k]));
        let height = part.rows();
        let top: i64 = frame.y1 as i64 + offset as i64;
        if height < MIN_HEIGHT && width > WIDE {
            let extra: i64 = ((MIN_HEIGHT - height) / 2 + 3) as i64;
            let from: i64 = floor_at(top - extra, 0);
            let to: i64 = cap_at(top + height as i64 + extra, image_height as i64);
            let grown: i64 = floor_at(to - from, 0);
            let start: i64 = cap_at(from, image_height as i64);
            let again = img.part(frame.x1, start as u32, frame.x2 - frame.x1, grown as u32);
            regions.push(
                LineRegion { img: again, place: LineBox { x: frame.x1 as i64, y: from, width, height: grown as u32 } },
            );
        } else {
            regions.push(LineRegion { img: part, place: LineBox { x: frame.x1 as i64, y: top, width, height } });
        }
    }
    regions
}

/// The measurer may be asked about every two lines.
pub open spec fn line_overlap_callable<F: Fn(&LineBox, &LineBox) -> Overlap>(measurer: F) -> bool {
    forall|a: &LineBox, b: &LineBox| #[trigger] call_requires(measurer, (a, b))
}

/// The measurer measures as `overlap` says.
pub open spec fn measures_lines<F: Fn(&LineBox, &LineBox) -> Overlap>(
    measurer: F,
    overlap: spec_fn(LineBox, LineBox) -> Overlap,
) -> bool {
    forall|a: &LineBox, b: &LineBox, r: Overlap| #[trigger] call_ensures(measurer, (a, b), r) ==> r == overlap(*a, *b)
}

/// A line repeats one of those recognized before.
pub open spec fn is_known(seen: Seq<LineBox>, line: LineBox, overlap: spec_fn(LineBox, LineBox) -> Overlap) -> bool {
    exists|p: int| 0 <= p < seen.len() && rules::repeats(overlap(line, #[trigger] seen[p]))
}

/// Tells whether a line repeats one of those recognized before.
pub fn is_duplicate<F: Fn(&LineBox, &LineBox) -> Overlap>(seen: &Vec<LineBox>, line: &LineBox, measurer: F) -> (known: bool)
    requires
        line_overlap_callable(measurer),
    ensures
        forall|overlap: spec_fn(LineBox, LineBox) -> Overlap| #[trigger]
            measures_lines(measurer, overlap) ==> known == is_known(seen@, *line, overlap),
{
    let mut p: usize = 0;
    while p < seen.len()
        invariant
            p <= seen.len(),
            line_overlap_callable(measurer),
            forall|overlap: spec_fn(LineBox, LineBox) -> Overlap| #[trigger]
                measures_lines(measurer, overlap) ==> forall|q: int|
                    0 <= q < p ==> !rules::repeats(overlap(*line, #[trigger] seen[q])),
        decreases seen.len() - p,
    {
        let o = measurer(line, &seen[p]);
        if rules::is_repeated(o) {
            proof {
                assert forall|overlap: spec_fn(LineBox, LineBox) -> Overlap| #[trigger]
                    measures_lines(measurer, overlap) implies is_known(seen@, *line, overlap) by {
                    assert(rules::repeats(overlap(*line, seen[p as int])));
                }
            }
            return true;
        }
        p = p + 1;
    }
    false
}

/// Line `i` removes line `j`.
pub open spec fn removal(lines: Seq<LineBox>, overlap: spec_fn(LineBox, LineBox) -> Overlap) -> spec_fn(int, int) -> bool {
    |i: int, j: int| rules::removes(overlap(lines[i], lines[j]))
}

/// The lines that are left when those taken from the best score down have removed
/// the ones that they overlap.
pub open spec fn left_over(
    lines: Seq<LineBox>,
    scores: Seq<Ordinal>,
    overlap: spec_fn(LineBox, LineBox) -> Overlap,
) -> Seq<usize> {
    suppress::survivors(
        ordering::sorted_positions(ordering::falling(scores)),
        lines.len() as int,
        removal(lines, overlap),
    )
}

/// The texts of the lines that are left, in their own order.
pub open spec fn undisputed(
    texts: Seq<String>,
    lines: Seq<LineBox>,
    scores: Seq<Ordinal>,
    overlap: spec_fn(LineBox, LineBox) -> Overlap,
) -> Seq<String> {
    suppress::retained(texts, left_over(lines, scores, overlap), texts.len() as int)
}

/// Removes the lines that a better one overlaps. Returns the texts that are
/// left, in their own order.
pub fn remove_overlaps<F: Fn(&LineBox, &LineBox) -> Overlap>(
    texts: Vec<String>,
    lines: &Vec<LineBox>,
    scores: &Vec<Ordinal>,
    measurer: F,
) -> (left: Vec<String>)
    requires
        scores.len() == lines.len(),
        line_overlap_callable(measurer),
    ensures
        forall|overlap: spec_fn(LineBox, LineBox) -> Overlap| #[trigger]
            measures_lines(measurer, overlap) ==> left@ == undisputed(texts@, lines@, scores@, overlap),
{
    let order = ordering::order_falling(scores);
    let n: usize = lines.len();
    let measure = &measurer;
    let removes = |i: usize, j: usize| -> (r: bool)
        requires
            i < lines.len(),
            j < lines.len(),
        ensures
            exists|o: Overlap| #[trigger]
                call_ensures(*measure, (&lines[i as int], &lines[j as int]), o) && r == rules::removes(o),
        {
            let o = measure(&lines[i], &lines[j]);
            rules::is_removed(o)
        };
    let kept = suppress::suppress(&order, n, removes);
    proof {
        assert forall|overlap: spec_fn(LineBox, LineBox) -> Overlap| #[trigger]
            measures_lines(measurer, overlap) implies kept@ == suppress::survivors(
            order@,
            lines.len() as int,
            removal(lines@, overlap),
        ) by {
            assert(judge::decides(removes, removal(lines@, overlap)));
        }
    }
    suppress::retain_texts(texts, &kept)
}

/// No line repeats one before it.
pub open spec fn all_new(lines: Seq<LineBox>, overlap: spec_fn(LineBox, LineBox) -> Overlap) -> bool {
    forall|p: int, q: int| 0 <= p < q < lines.len() ==> !rules::repeats(overlap(#[trigger] lines[q], #[trigger] lines[p]))
}

/// Lines of which none repeats one before it stay so when a line is added that
/// repeats none of them.
pub proof fn law_new_line_keeps_lines_new(
    lines: Seq<LineBox>,
    line: LineBox,
    overlap: spec_fn(LineBox, LineBox) -> Overlap,
)
    requires
        all_new(lines, overlap),
        !is_known(lines, line, overlap),
    ensures
        all_new(lines.push(line), overlap),
{
}

/// Of the lines that are left, none removes one with a lower score, and every
/// line that is not left is removed by one that is.
pub proof fn law_left_over_lines_are_settled(
    lines: Seq<LineBox>,
    scores: Seq<Ordinal>,
    overlap: spec_fn(LineBox, LineBox) -> Overlap,
)
    requires
        scores.len() == lines.len(),
        lines.len() <= usize::MAX,
    ensures
        ({
            let left = left_over(lines, scores, overlap);
            &&& forall|p: int, q: int|
                0 <= p < q < left.len() ==> !rules::removes(
                    overlap(lines[#[trigger] left[p] as int], lines[#[trigger] left[q] as int]),
                )
            &&& forall|j: int|
                0 <= j < lines.len() ==> #[trigger] left.contains(j as usize) || suppress::dominated(
                    left,
                    j,
                    removal(lines, overlap),
                )
        }),
{
    let keys = ordering::falling(scores);
    let order = ordering::sorted_positions(keys);
    let rel = removal(lines, overlap);
    let left = left_over(lines, scores, overlap);
    ordering::law_stable_order_exists(keys);
    assert forall|p: int, q: int| 0 <= p < q < left.len() implies !rules::removes(
        overlap(lines[#[trigger] left[p] as int], lines[#[trigger] left[q] as int]),
    ) by {
        suppress::law_survivors_are_free(order, rel, p, q);
    }
    assert forall|j: int| 0 <= j < lines.len() implies #[trigger] left.contains(j as usize) || suppress::dominated(
        left,
        j,
        rel,
    ) by {
        ordering::law_permutation_covers(order, keys.len(), j);
        let k = choose|k: int| 0 <= k < order.len() && #[trigger] order[k] == j;
        suppress::law_dropped_are_dominated(order, rel, k);
    }
}

/// The line with the best score, the first of several, is always left.
pub proof fn law_best_line_is_left(
    lines: Seq<LineBox>,
    scores: Seq<Ordinal>,
    overlap: spec_fn(LineBox, LineBox) -> Overlap,
    best: int,
)
    requires
        scores.len() == lines.len(),
        lines.len() <= usize::MAX,
        0 <= best < lines.len(),
        forall|i: int| 0 <= i < best ==> scores[i] < scores[best],
        forall|i: int| best <= i < lines.len() ==> scores[i] <= scores[best],
    ensures
        left_over(lines, scores, overlap).contains(best as usize),
{
    let keys = ordering::falling(scores);
    let order = ordering::sorted_positions(keys);
    ordering::law_stable_order_exists(keys);
    ordering::law_permutation_covers(order, keys.len(), best);
    let k = choose|k: int| 0 <= k < order.len() && #[trigger] order[k] == best;
    if k > 0 {
        assert(ordering::comes_before(keys, order[0] as int, order[k] as int));
        assert(keys[order[0] as int] == -(scores[order[0] as int] as i64));
        assert(keys[best] == -(scores[best] as i64));
    }
    suppress::law_first_survives(order, removal(lines, overlap));
    assert(left_over(lines, scores, overlap)[0] == best);
}

/// Which columns and rows a line's frame holds. Its columns are those of the image
/// that lie no further than `pad_x` from the box. Its rows are those that lie no
/// further than `pad_y` from it; a line of fewer than 20 rows and more than 40
/// columns gets some more above and below, three and half of what it lacks to 20.
/// There is no frame where this leaves fewer than three columns or rows.
pub proof fn law_frame_holds_the_padded_box(
    frame: Option<Frame>,
    x1: int,
    y1: int,
    x2: int,
    y2: int,
    pad_x: int,
    pad_y: int,
    width: int,
    height: int,
    x: int,
    y: int,
)
    requires
        is_framed(frame, x1, y1, x2, y2, pad_x, pad_y, width, height),
        0 <= pad_x,
        0 <= pad_y,
    ensures
        ({
            let columns = Set::new(|i: int| 0 <= i < width && x1 - pad_x <= i < x2 + pad_x);
            let rows = Set::new(|i: int| 0 <= i < height && y1 - pad_y <= i < y2 + pad_y);
            &&& frame is None <==> columns.len() < 3 || rows.len() < 3
            &&& frame matches Some(f) ==> {
                let more = if rows.len() < 20 && columns.len() > 40 {
                    (20 - rows.len()) / 2 + 3
                } else {
                    0
                };
                let top = if y1 - pad_y < 0 {
                    0
                } else {
                    y1 - pad_y
                };
                let bottom = if y2 + pad_y > height {
                    height
                } else {
                    y2 + pad_y
                };
                &&& f.x1 <= x < f.x2 <==> columns.contains(x)
                &&& f.y1 <= y < f.y2 <==> 0 <= y < height && top - more <= y < bottom + more
            }
        }),
{
    let left = at_least(x1 - pad_x, 0);
    let top = at_least(y1 - pad_y, 0);
    let right = at_most(x2 + pad_x, width);
    let bottom = at_most(y2 + pad_y, height);
    let columns = Set::new(|i: int| 0 <= i < width && x1 - pad_x <= i < x2 + pad_x);
    let rows = Set::new(|i: int| 0 <= i < height && y1 - pad_y <= i < y2 + pad_y);
    assert(columns =~= vstd::set_lib::set_int_range(left, right));
    assert(rows =~= vstd::set_lib::set_int_range(top, bottom));
    lemma_range_len(left, right);
    lemma_range_len(top, bottom);
}

proof fn lemma_range_len(a: int, b: int)
    ensures
        vstd::set_lib::set_int_range(a, b).len() == (if a < b {
            b - a
        } else {
            0
        }),
{
    if a < b {
        vstd::set_lib::lemma_int_range(a, b);
    } else {
        assert(vstd::set_lib::set_int_range(a, b) =~= Set::empty());
    }
}

/// A region is reported where it is read. `region` being the frame's part of the
/// image, each pixel of a line's region is the image's pixel at the place that is
/// reported; the place holds all rows of the strip that lie in the image, and has
/// the region's size.
pub proof fn law_regions_are_reported_where_they_are(
    r: LineRegion,
    img: Gray,
    frame: Frame,
    region: Gray,
    rows: (int, int),
    x: int,
    y: int,
)
    requires
        img.wf(),
        region.wf(),
        frame.within(img.width(), img.height()),
        region.width() == frame.x2 - frame.x1,
        region.height() == frame.y2 - frame.y1,
        forall|i: int, j: int|
            0 <= i < region.width() && 0 <= j < region.height() ==> #[trigger] region.at(i, j) == img.at(
                frame.x1 + i,
                frame.y1 + j,
            ),
        0 <= rows.0 <= rows.1 <= region.height(),
        is_line_region(r, img, frame, region, rows),
        0 <= x < r.img.width(),
        0 <= y < r.img.height(),
    ensures
        r.place.width == r.img.width(),
        r.place.height == r.img.height(),
        r.img.at(x, y) == img.at(r.place.x + x, r.place.y + y),
        r.place.x == frame.x1,
        r.place.y <= frame.y1 + rows.0,
        r.place.y + r.place.height >= frame.y1 + rows.1,
        rows.1 - rows.0 >= 20 || region.width() <= 40 ==> r.place.y == frame.y1 + rows.0 && r.place.height == rows.1
            - rows.0,
        rows.1 - rows.0 < 20 && region.width() > 40 && frame.y1 + rows.0 >= 13 && frame.y1 + rows.1 + 13 <= img.height()
            ==> r.place.height >= 25,
{
    let width = region.width() as int;
    let place = strip_place(frame.x1 as int, frame.y1 as int, rows, width, img.height() as int);
    gray::lemma_index(r.img.width(), r.img.height(), x, y);
    if is_regrown(rows, width) {
        assert(place.1 <= img.height());
        gray::law_crop_takes_pixels(
            img.pixels(),
            img.width(),
            frame.x1 as int,
            place.1,
            r.img.width(),
            r.img.height(),
            x,
            y,
        );
    } else {
        gray::law_crop_takes_pixels(region.pixels(), region.width(), 0, rows.0, r.img.width(), r.img.height(), x, y);
        assert(r.img.at(x, y) == region.at(x, rows.0 + y));
    }
}

/// A line whose text is not left was removed by one that is left and has no lower
/// score.
pub proof fn law_lines_give_way_to_better_ones(
    lines: Seq<LineBox>,
    scores: Seq<Ordinal>,
    overlap: spec_fn(LineBox, LineBox) -> Overlap,
    j: int,
) -> (i: int)
    requires
        scores.len() == lines.len(),
        lines.len() <= usize::MAX,
        0 <= j < lines.len(),
        !left_over(lines, scores, overlap).contains(j as usize),
    ensures
        0 <= i < lines.len(),
        left_over(lines, scores, overlap).contains(i as usize),
        scores[i] >= scores[j],
        rules::removes(overlap(lines[i], lines[j])),
{
    let keys = ordering::falling(scores);
    let order = ordering::sorted_positions(keys);
    let rel = removal(lines, overlap);
    ordering::law_stable_order_exists(keys);
    ordering::law_permutation_covers(order, keys.len(), j);
    let k = choose|k: int| 0 <= k < order.len() && #[trigger] order[k] == j;
    let (p, a) = suppress::law_dropped_are_dominated_earlier(order, rel, k);
    assert(ordering::comes_before(keys, order[a] as int, order[k] as int));
    let i = order[a] as int;
    assert(keys[i] == -(scores[i] as i64));
    assert(keys[j] == -(scores[j] as i64));
    assert(left_over(lines, scores, overlap)[p] == i as usize);
    i
}

/// The texts that remain are those of the lines that are left, in their order.
pub proof fn law_texts_of_left_lines_remain(
    texts: Seq<String>,
    lines: Seq<LineBox>,
    scores: Seq<Ordinal>,
    overlap: spec_fn(LineBox, LineBox) -> Overlap,
    a: int,
    b: int,
) -> (places: (int, int))
    requires
        texts.len() <= usize::MAX,
        0 <= a < b < texts.len(),
        left_over(lines, scores, overlap).contains(a as usize),
        left_over(lines, scores, overlap).contains(b as usize),
    ensures
        0 <= places.0 < places.1 < undisputed(texts, lines, scores, overlap).len(),
        undisputed(texts, lines, scores, overlap)[places.0] == texts[a],
        undisputed(texts, lines, scores, overlap)[places.1] == texts[b],
{
    let left = left_over(lines, scores, overlap);
    let n = texts.len() as int;
    suppress::law_named_are_retained(texts, left, n, a);
    suppress::law_named_are_retained(texts, left, n, b);
    suppress::law_named_are_retained(texts, left, b, a);
    (suppress::retained(texts, left, a).len() as int, suppress::retained(texts, left, b).len() as int)
}

} // verus!
