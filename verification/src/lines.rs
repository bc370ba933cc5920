//! From groups of boxes to lines of text.

use vstd::prelude::*;

use crate::bbox;
use crate::bbox::BBox;
use crate::groups;
use crate::measure;
use crate::measure::Measure;
use crate::ordering;
use crate::ordering::Ordinal;
use crate::rules;
use crate::rules::{Heading, Overlap, Shape};
use crate::suppress;

verus! {

/// The ordinal of 0.6: lines that overlap more than this are one line.
pub const LINE_OVERLAP: Ordinal = 0x3F19_999A;

/// The smallest box around a group of boxes, level, with the highest of their
/// confidences but none below zero.
pub open spec fn around_group(boxes: Seq<BBox>, group: Seq<usize>) -> BBox
    decreases group.len(),
{
    if group.len() <= 1 {
        let only = boxes[group[0] as int];
        BBox { conf: bbox::greater(0, only.conf), angle: 0, ..only }
    } else {
        boxes[group.last() as int].spanning(around_group(boxes, group.drop_last()))
    }
}

fn box_around(boxes: &Vec<BBox>, group: &Vec<usize>) -> (b: BBox)
    requires
        group.len() > 0,
        forall|p: int| 0 <= p < group.len() ==> (#[trigger] group[p]) < boxes.len(),
    ensures
        b == around_group(boxes@, group@),
{
    let only = boxes[group[0]];
    let mut b = BBox::new(only.x1, only.y1, only.x2, only.y2, bbox::greater_of(0, only.conf));
    let mut p: usize = 1;
    while p < group.len()
        invariant
            1 <= p <= group.len(),
            forall|q: int| 0 <= q < group.len() ==> (#[trigger] group[q]) < boxes.len(),
            b == around_group(boxes@, group@.take(p as int)),
        decreases group.len() - p,
    {
        b = boxes[group[p]].joined_with(&b);
        assert(group@.take(p + 1).drop_last() =~= group@.take(p as int));
        p = p + 1;
    }
    assert(group@.take(group.len() as int) =~= group@);
    b
}

/// The box around a group covers each of its boxes; and every box that covers
/// them all, with a confidence not below zero, covers the box around them.
pub proof fn law_line_is_least_cover(boxes: Seq<BBox>, group: Seq<usize>, outer: BBox)
    requires
        group.len() > 0,
    ensures
        forall|p: int|
            0 <= p < group.len() ==> around_group(boxes, group).covers(boxes[#[trigger] group[p] as int]),
        outer.conf >= 0 && (forall|p: int| 0 <= p < group.len() ==> outer.covers(boxes[#[trigger] group[p] as int]))
            ==> outer.covers(around_group(boxes, group)),
    decreases group.len(),
{
    if group.len() > 1 {
        let before = group.drop_last();
        law_line_is_least_cover(boxes, before, outer);
        bbox::law_spanning_is_least(boxes[group.last() as int], around_group(boxes, before), outer);
        assert forall|p: int| 0 <= p < group.len() implies around_group(boxes, group).covers(
            boxes[#[trigger] group[p] as int],
        ) by {
            if p < before.len() {
                assert(before[p] == group[p]);
            }
        }
        if outer.conf >= 0 && (forall|p: int| 0 <= p < group.len() ==> outer.covers(boxes[#[trigger] group[p] as int])) {
            assert forall|p: int| 0 <= p < before.len() implies outer.covers(boxes[#[trigger] before[p] as int]) by {
                assert(before[p] == group[p]);
            }
            assert(group.last() == group[group.len() - 1]);
        }
    }
}

/// How the lines' shapes are measured: the angle of a group's text, and what
/// decides whether it is text.
pub type Shaping = spec_fn(Seq<usize>, BBox) -> (Ordinal, Shape);

/// The measurer may be asked about every group.
pub open spec fn shape_callable<F: Fn(&Vec<usize>, &BBox) -> (Ordinal, Shape)>(measurer: F) -> bool {
    forall|group: &Vec<usize>, b: &BBox| #[trigger] call_requires(measurer, (group, b))
}

/// The measurer measures as `shaping` says.
pub open spec fn shapes<F: Fn(&Vec<usize>, &BBox) -> (Ordinal, Shape)>(measurer: F, shaping: Shaping) -> bool {
    forall|group: &Vec<usize>, b: &BBox, r: (Ordinal, Shape)| #[trigger]
        call_ensures(measurer, (group, b), r) ==> r == shaping(group@, *b)
}

/// The lines of the first `k` groups: of each group that is text, the box
/// around it, at its angle.
pub open spec fn formed(groups: Seq<Seq<usize>>, boxes: Seq<BBox>, shaping: Shaping, k: int) -> Seq<BBox>
    decreases k,
{
    if k <= 0 {
        Seq::empty()
    } else {
        let before = formed(groups, boxes, shaping, k - 1);
        let around = around_group(boxes, groups[k - 1]);
        let (angle, shape) = shaping(groups[k - 1], around);
        if rules::is_text_line(groups[k - 1].len(), around.conf, shape) {
            before.push(BBox { angle, ..around })
        } else {
            before
        }
    }
}

/// Forms the lines of text from groups of boxes.
pub fn form_lines<F: Fn(&Vec<usize>, &BBox) -> (Ordinal, Shape)>(
    groups: &Vec<Vec<usize>>,
    boxes: &Vec<BBox>,
    measurer: F,
) -> (lines: Vec<BBox>)
    requires
        shape_callable(measurer),
        groups::within(groups::contents(groups@), boxes.len() as nat),
        forall|p: int| 0 <= p < groups.len() ==> (#[trigger] groups[p]).len() > 0,
    ensures
        forall|shaping: Shaping| #[trigger]
            shapes(measurer, shaping) ==> lines@ == formed(
                groups::contents(groups@),
                boxes@,
                shaping,
                groups.len() as int,
            ),
{
    let ghost all = groups::contents(groups@);
    let mut lines: Vec<BBox> = Vec::new();
    let mut k: usize = 0;
    while k < groups.len()
        invariant
            k <= groups.len(),
            all == groups::contents(groups@),
            shape_callable(measurer),
            groups::within(all, boxes.len() as nat),
            forall|p: int| 0 <= p < groups.len() ==> (#[trigger] groups[p]).len() > 0,
            forall|shaping: Shaping| #[trigger]
                shapes(measurer, shaping) ==> lines@ == formed(all, boxes@, shaping, k as int),
        decreases groups.len() - k,
    {
        let group = &groups[k];
        assert forall|p: int| 0 <= p < group.len() implies (#[trigger] group[p]) < boxes.len() by {
            assert(all[k as int][p] < boxes.len());
        }
        let around = box_around(boxes, group);
        let (angle, shape) = measurer(group, &around);
        if rules::is_line(group.len(), around.conf, shape) {
            lines.push(BBox::with_angle(around.x1, around.y1, around.x2, around.y2, around.conf, angle));
        }
        k = k + 1;
    }
    lines
}

/// How headings are told: the width of a box, the limit that a heading stays below
/// for a given median width, and how one box lies to another.
pub struct Headings {
    pub width: spec_fn(BBox) -> Ordinal,
    pub limit: spec_fn(Ordinal) -> Ordinal,
    pub place: spec_fn(BBox, BBox) -> Heading,
}

impl Headings {
    pub open spec fn widths(self, lines: Seq<BBox>) -> Seq<Ordinal> {
        Seq::new(lines.len(), |p: int| (self.width)(lines[p]))
    }

    /// The median width; the upper one of two.
    pub open spec fn median(self, lines: Seq<BBox>) -> Ordinal {
        let widths = self.widths(lines);
        widths[ordering::sorted_positions(ordering::rising(widths))[lines.len() as int / 2] as int]
    }

    /// Line `i` is narrow and heads line `j`.
    pub open spec fn is_pair(self, lines: Seq<BBox>, i: int, j: int) -> bool {
        &&& i != j
        &&& (self.width)(lines[i]) < (self.limit)(self.median(lines))
        &&& rules::heads((self.place)(lines[i], lines[j]))
    }

    /// The first pair in rows `i`, `i + 1`, ..., taken from `(i, j)` on.
    pub open spec fn pair_from(self, lines: Seq<BBox>, i: int, j: int) -> Option<(int, int)>
        decreases lines.len() - i, lines.len() - j,
    {
        if i >= lines.len() {
            None
        } else if j >= lines.len() {
            self.pair_from(lines, i + 1, 0)
        } else if self.is_pair(lines, i, j) {
            Some((i, j))
        } else {
            self.pair_from(lines, i, j + 1)
        }
    }

    /// The lines after heading `i` has become part of line `j`.
    pub open spec fn attached(self, lines: Seq<BBox>, i: int, j: int) -> Seq<BBox> {
        lines.update(j, lines[i].spanning(lines[j])).remove(i)
    }

    /// The lines after headings have been joined to their lines, first pairs
    /// first, until no pair is left.
    pub open spec fn merged(self, lines: Seq<BBox>) -> Seq<BBox>
        decreases lines.len(),
    {
        match self.pair_from(lines, 0, 0) {
            None => lines,
            Some((i, j)) => {
                if 0 <= i < lines.len() && 0 <= j < lines.len() {
                    self.merged(self.attached(lines, i, j))
                } else {
                    lines
                }
            },
        }
    }

    proof fn lemma_pair_in_range(self, lines: Seq<BBox>, i: int, j: int)
        requires
            0 <= i,
            0 <= j,
        ensures
            self.pair_from(lines, i, j) matches Some((a, b)) ==> 0 <= a < lines.len() && 0 <= b < lines.len()
                && self.is_pair(lines, a, b),
        decreases lines.len() - i, lines.len() - j,
    {
        if i < lines.len() {
            if j >= lines.len() {
                self.lemma_pair_in_range(lines, i + 1, 0);
            } else if !self.is_pair(lines, i, j) {
                self.lemma_pair_in_range(lines, i, j + 1);
            }
        }
    }

    proof fn lemma_narrow_row(self, lines: Seq<BBox>, i: int, j: int)
        requires
            0 <= i < lines.len(),
            0 <= j <= lines.len(),
            (self.width)(lines[i]) >= (self.limit)(self.median(lines)),
        ensures
            self.pair_from(lines, i, j) == self.pair_from(lines, i + 1, 0),
        decreases lines.len() - j,
    {
        if j < lines.len() {
            self.lemma_narrow_row(lines, i, j + 1);
        }
    }
}

/// The measurers may be asked about every box.
pub open spec fn headings_callable<W: Fn(&BBox) -> Ordinal, L: Fn(Ordinal) -> Ordinal, P: Fn(&BBox, &BBox) -> Heading>(
    width: W,
    limit: L,
    place: P,
) -> bool {
    &&& forall|b: &BBox| #[trigger] call_requires(width, (b,))
    &&& forall|m: Ordinal| #[trigger] call_requires(limit, (m,))
    &&& forall|a: &BBox, b: &BBox| #[trigger] call_requires(place, (a, b))
}

/// The measurers measure as `headings` says.
pub open spec fn measures_headings<W: Fn(&BBox) -> Ordinal, L: Fn(Ordinal) -> Ordinal, P: Fn(&BBox, &BBox) -> Heading>(
    width: W,
    limit: L,
    place: P,
    headings: Headings,
) -> bool {
    &&& forall|b: &BBox, r: Ordinal| #[trigger] call_ensures(width, (b,), r) ==> r == (headings.width)(*b)
    &&& forall|m: Ordinal, r: Ordinal| #[trigger] call_ensures(limit, (m,), r) ==> r == (headings.limit)(m)
    &&& forall|a: &BBox, b: &BBox, r: Heading| #[trigger]
        call_ensures(place, (a, b), r) ==> r == (headings.place)(*a, *b)
}

/// Looks for the first heading and the line that it heads.
fn find_heading<W: Fn(&BBox) -> Ordinal, L: Fn(Ordinal) -> Ordinal, P: Fn(&BBox, &BBox) -> Heading>(
    lines: &Vec<BBox>,
    width: &W,
    limit: &L,
    place: &P,
) -> (pair: Option<(usize, usize)>)
    requires
        lines.len() > 0,
        headings_callable(*width, *limit, *place),
    ensures
        pair matches Some((i, j)) ==> i < lines.len() && j < lines.len() && i != j,
        forall|headings: Headings| #[trigger]
            measures_headings(*width, *limit, *place, headings) ==> match pair {
                None => headings.pair_from(lines@, 0, 0) is None,
                Some((i, j)) => headings.pair_from(lines@, 0, 0) == Some((i as int, j as int)),
            },
{
    let mut widths: Vec<Ordinal> = Vec::new();
    while widths.len() < lines.len()
        invariant
            widths.len() <= lines.len(),
            headings_callable(*width, *limit, *place),
            forall|headings: Headings| #[trigger]
                measures_headings(*width, *limit, *place, headings) ==> forall|p: int|
                    0 <= p < widths.len() ==> #[trigger] widths[p] == (headings.width)(lines[p]),
        decreases lines.len() - widths.len(),
    {
        let w = width(&lines[widths.len()]);
        widths.push(w);
    }
    let sorted = ordering::order_rising(&widths);
    let median = widths[sorted[lines.len() / 2]];
    let most = limit(median);
    proof {
        assert forall|headings: Headings| #[trigger]
            measures_headings(*width, *limit, *place, headings) implies widths@ == headings.widths(lines@) && most == (
        headings.limit)(headings.median(lines@)) by {
            assert(widths@ =~= headings.widths(lines@));
        }
    }
    let mut i: usize = 0;
    while i < lines.len()
        invariant
            i <= lines.len(),
            widths.len() == lines.len(),
            headings_callable(*width, *limit, *place),
            forall|headings: Headings| #[trigger]
                measures_headings(*width, *limit, *place, headings) ==> widths@ == headings.widths(lines@) && most == (
                headings.limit)(headings.median(lines@)) && headings.pair_from(lines@, 0, 0) == headings.pair_from(
                    lines@,
                    i as int,
                    0,
                ),
        decreases lines.len() - i,
    {
        if widths[i] < most {
            let mut j: usize = 0;
            while j < lines.len()
                invariant
                    i < lines.len(),
                    j <= lines.len(),
                    widths.len() == lines.len(),
                    widths[i as int] < most,
                    headings_callable(*width, *limit, *place),
                    forall|headings: Headings| #[trigger]
                        measures_headings(*width, *limit, *place, headings) ==> widths@ == headings.widths(lines@)
                            && most == (headings.limit)(headings.median(lines@)) && headings.pair_from(lines@, 0, 0)
                            == headings.pair_from(lines@, i as int, j as int),
                decreases lines.len() - j,
            {
                if i != j {
                    let placed = place(&lines[i], &lines[j]);
                    if rules::is_headed(placed) {
                        return Some((i, j));
                    }
                }
                j = j + 1;
            }
        } else {
            proof {
                assert forall|headings: Headings| #[trigger]
                    measures_headings(*width, *limit, *place, headings) implies headings.pair_from(lines@, i as int, 0)
                    == headings.pair_from(lines@, i + 1, 0) by {
                    assert(widths@[i as int] == headings.widths(lines@)[i as int]);
                    headings.lemma_narrow_row(lines@, i as int, 0);
                }
            }
        }
        i = i + 1;
    }
    None
}

/// Joins narrow heading boxes to the lines that they head.
pub fn merge_heading_boxes<W: Fn(&BBox) -> Ordinal, L: Fn(Ordinal) -> Ordinal, P: Fn(&BBox, &BBox) -> Heading>(
    lines: &mut Vec<BBox>,
    width: W,
    limit: L,
    place: P,
)
    requires
        headings_callable(width, limit, place),
    ensures
        forall|headings: Headings| #[trigger]
            measures_headings(width, limit, place, headings) ==> final(lines)@ == headings.merged(old(lines)@),
{
    let ghost first = lines@;
    if lines.len() < 2 {
        proof {
            assert forall|headings: Headings| #[trigger]
                measures_headings(width, limit, place, headings) implies lines@ == headings.merged(lines@) by {
                headings.lemma_pair_in_range(lines@, 0, 0);
            }
        }
        return;
    }
    loop
        invariant
            lines.len() > 0,
            headings_callable(width, limit, place),
            forall|headings: Headings| #[trigger]
                measures_headings(width, limit, place, headings) ==> headings.merged(lines@) == headings.merged(first),
        ensures
            forall|headings: Headings| #[trigger]
                measures_headings(width, limit, place, headings) ==> lines@ == headings.merged(first),
        decreases lines.len(),
    {
        match find_heading(lines, &width, &limit, &place) {
            Some((i, j)) => {
                let ghost before = lines@;
                let joined = lines[i].joined_with(&lines[j]);
                lines.set(j, joined);
                lines.remove(i);
                proof {
                    assert forall|headings: Headings| #[trigger]
                        measures_headings(width, limit, place, headings) implies headings.merged(lines@)
                        == headings.merged(before) by {
                        assert(lines@ =~= headings.attached(before, i as int, j as int));
                    }
                }
            },
            None => {
                break;
            },
        }
    }
}

/// Joining headings loses no text: every line is covered by one of the lines
/// that are left.
pub proof fn law_headings_keep_lines(headings: Headings, lines: Seq<BBox>, p: int)
    requires
        0 <= p < lines.len(),
    ensures
        exists|q: int|
            0 <= q < headings.merged(lines).len() && (#[trigger] headings.merged(lines)[q]).covers(lines[p]),
    decreases lines.len(),
{
    headings.lemma_pair_in_range(lines, 0, 0);
    match headings.pair_from(lines, 0, 0) {
        None => {
            assert(headings.merged(lines)[p].covers(lines[p]));
        },
        Some((i, j)) => {
            let next = headings.attached(lines, i, j);
            bbox::law_spanning_is_least(lines[i], lines[j], lines[p]);
            let kept = if p == i {
                j
            } else {
                p
            };
            let at = if kept < i {
                kept
            } else {
                kept - 1
            };
            assert(next[at].covers(lines[p]));
            law_headings_keep_lines(headings, next, at);
            let q = choose|q: int|
                0 <= q < headings.merged(next).len() && (#[trigger] headings.merged(next)[q]).covers(next[at]);
            assert(headings.merged(lines)[q].covers(lines[p]));
        },
    }
}

/// When headings have been joined, none is left.
pub proof fn law_no_heading_left(headings: Headings, lines: Seq<BBox>)
    ensures
        headings.pair_from(headings.merged(lines), 0, 0) is None,
        headings.merged(headings.merged(lines)) == headings.merged(lines),
        headings.merged(lines).len() <= lines.len(),
    decreases lines.len(),
{
    headings.lemma_pair_in_range(lines, 0, 0);
    match headings.pair_from(lines, 0, 0) {
        None => {},
        Some((i, j)) => {
            law_no_heading_left(headings, headings.attached(lines, i, j));
        },
    }
}

/// Each of the boxes is large enough to hold text.
pub open spec fn all_large(
    lines: Seq<BBox>,
    width: spec_fn(BBox) -> Measure,
    height: spec_fn(BBox) -> Measure,
) -> bool {
    forall|q: int| 0 <= q < lines.len() ==> rules::is_large(width(#[trigger] lines[q]), height(lines[q]))
}

/// Every line that is formed is large enough to hold text, where the shape of a
/// group has the width and height of the box around it, at whatever angle.
pub proof fn law_formed_are_large(
    groups: Seq<Seq<usize>>,
    boxes: Seq<BBox>,
    shaping: Shaping,
    width: spec_fn(BBox) -> Measure,
    height: spec_fn(BBox) -> Measure,
    k: int,
)
    requires
        forall|group: Seq<usize>, b: BBox|
            (#[trigger] shaping(group, b)).1.width == width(b) && shaping(group, b).1.height == height(b),
        forall|b: BBox, angle: Ordinal|
            (#[trigger] width((BBox { angle, ..b }))) == width(b) && height((BBox { angle, ..b })) == height(b),
    ensures
        all_large(formed(groups, boxes, shaping, k), width, height),
    decreases k,
{
    if k > 0 {
        law_formed_are_large(groups, boxes, shaping, width, height, k - 1);
    }
}

/// Joining headings leaves lines that are large enough to hold text, where a box
/// that covers a large one is large.
pub proof fn law_headings_keep_large(
    headings: Headings,
    lines: Seq<BBox>,
    width: spec_fn(BBox) -> Measure,
    height: spec_fn(BBox) -> Measure,
)
    requires
        all_large(lines, width, height),
        forall|a: BBox, b: BBox| #[trigger]
            a.covers(b) && rules::is_large(width(b), height(b)) ==> rules::is_large(width(a), height(a)),
    ensures
        all_large(headings.merged(lines), width, height),
    decreases lines.len(),
{
    headings.lemma_pair_in_range(lines, 0, 0);
    match headings.pair_from(lines, 0, 0) {
        None => {},
        Some((i, j)) => {
            let next = headings.attached(lines, i, j);
            bbox::law_spanning_is_least(lines[i], lines[j], lines[j]);
            assert(lines[i].spanning(lines[j]).covers(lines[j]));
            assert forall|q: int| 0 <= q < next.len() implies rules::is_large(
                width(#[trigger] next[q]),
                height(next[q]),
            ) by {
                let at = if q < i {
                    q
                } else {
                    q + 1
                };
                if at != j {
                    assert(next[q] == lines[at]);
                }
            }
            law_headings_keep_large(headings, next, width, height);
        },
    }
}

/// The measurer may be asked about every two boxes.
pub open spec fn overlap_callable<F: Fn(&BBox, &BBox) -> Overlap>(measurer: F) -> bool {
    forall|a: &BBox, b: &BBox| #[trigger] call_requires(measurer, (a, b))
}

/// The measurer measures as `overlap` says.
pub open spec fn measures_overlap<F: Fn(&BBox, &BBox) -> Overlap>(
    measurer: F,
    overlap: spec_fn(BBox, BBox) -> Overlap,
) -> bool {
    forall|a: &BBox, b: &BBox, r: Overlap| #[trigger] call_ensures(measurer, (a, b), r) ==> r == overlap(*a, *b)
}

/// Box `i` dominates box `j`.
pub open spec fn dominance(
    boxes: Seq<BBox>,
    overlap: spec_fn(BBox, BBox) -> Overlap,
    iou_threshold: Ordinal,
) -> spec_fn(int, int) -> bool {
    |i: int, j: int| rules::dominates(overlap(boxes[i], boxes[j]), iou_threshold)
}

/// The boxes at the given places.
pub open spec fn chosen(boxes: Seq<BBox>, places: Seq<usize>) -> Seq<BBox> {
    Seq::new(places.len(), |p: int| boxes[places[p] as int])
}

/// Of lines taken from the largest area down, keeps those that none kept before
/// dominates.
pub fn nms_merged_boxes<F: Fn(&BBox, &BBox) -> Overlap>(
    boxes: &Vec<BBox>,
    areas: &Vec<Ordinal>,
    iou_threshold: Ordinal,
    measurer: F,
) -> (kept: Vec<BBox>)
    requires
        areas.len() == boxes.len(),
        overlap_callable(measurer),
    ensures
        forall|overlap: spec_fn(BBox, BBox) -> Overlap| #[trigger]
            measures_overlap(measurer, overlap) ==> kept@ == chosen(
                boxes@,
                suppress::survivors(
                    ordering::sorted_positions(ordering::falling(areas@)),
                    boxes.len() as int,
                    dominance(boxes@, overlap, iou_threshold),
                ),
            ),
{
    let order = ordering::order_falling(areas);
    let n: usize = boxes.len();
    let measure = &measurer;
    let judge = |i: usize, j: usize| -> (r: bool)
        requires
            i < boxes.len(),
            j < boxes.len(),
        ensures
            exists|o: Overlap| #[trigger]
                call_ensures(*measure, (&boxes[i as int], &boxes[j as int]), o) && r == rules::dominates(
                    o,
                    iou_threshold,
                ),
        {
            let o = measure(&boxes[i], &boxes[j]);
            rules::is_dominated(o, iou_threshold)
        };
    let places = suppress::suppress(&order, n, judge);
    let mut kept: Vec<BBox> = Vec::new();
    let mut p: usize = 0;
    while p < places.len()
        invariant
            p <= places.len(),
            forall|q: int| 0 <= q < places.len() ==> (#[trigger] places[q]) < boxes.len(),
            kept@ == chosen(boxes@, places@).take(p as int),
        decreases places.len() - p,
    {
        kept.push(boxes[places[p]]);
        p = p + 1;
        assert(chosen(boxes@, places@).take(p as int) =~= chosen(boxes@, places@).take(p - 1).push(
            chosen(boxes@, places@)[p - 1],
        ));
    }
    assert(kept@ =~= chosen(boxes@, places@));
    proof {
        assert forall|overlap: spec_fn(BBox, BBox) -> Overlap| #[trigger]
            measures_overlap(measurer, overlap) implies kept@ == chosen(
            boxes@,
            suppress::survivors(
                ordering::sorted_positions(ordering::falling(areas@)),
                boxes.len() as int,
                dominance(boxes@, overlap, iou_threshold),
            ),
        ) by {
            assert(crate::judge::decides(judge, dominance(boxes@, overlap, iou_threshold)));
        }
    }
    kept
}

/// The measurer may be asked about every box.
pub open spec fn area_callable<F: Fn(&BBox) -> Ordinal>(measurer: F) -> bool {
    forall|b: &BBox| #[trigger] call_requires(measurer, (b,))
}

/// The measurer measures as `area` says.
pub open spec fn measures_area<F: Fn(&BBox) -> Ordinal>(measurer: F, area: spec_fn(BBox) -> Ordinal) -> bool {
    forall|b: &BBox, r: Ordinal| #[trigger] call_ensures(measurer, (b,), r) ==> r == area(*b)
}

/// The lines that none of larger area dominates.
pub open spec fn undominated(
    lines: Seq<BBox>,
    area: spec_fn(BBox) -> Ordinal,
    overlap: spec_fn(BBox, BBox) -> Overlap,
    iou_threshold: Ordinal,
) -> Seq<BBox> {
    chosen(
        lines,
        suppress::survivors(
            ordering::sorted_positions(ordering::falling(Seq::new(lines.len(), |p: int| area(lines[p])))),
            lines.len() as int,
            dominance(lines, overlap, iou_threshold),
        ),
    )
}

/// Makes lines of groups: forms them, drops those that a larger one dominates,
/// and joins headings to the lines that they head.
pub fn finish_lines<
    F: Fn(&Vec<usize>, &BBox) -> (Ordinal, Shape),
    A: Fn(&BBox) -> Ordinal,
    O: Fn(&BBox, &BBox) -> Overlap,
    W: Fn(&BBox) -> Ordinal,
    L: Fn(Ordinal) -> Ordinal,
    P: Fn(&BBox, &BBox) -> Heading,
>(
    groups: &Vec<Vec<usize>>,
    boxes: &Vec<BBox>,
    shape: F,
    area: A,
    overlap: O,
    iou_threshold: Ordinal,
    width: W,
    limit: L,
    place: P,
) -> (lines: Vec<BBox>)
    requires
        groups::sane(groups::contents(groups@), boxes.len() as nat),
        shape_callable(shape),
        area_callable(area),
        overlap_callable(overlap),
        headings_callable(width, limit, place),
    ensures
        forall|
            shaping: Shaping,
            areas: spec_fn(BBox) -> Ordinal,
            overlaps: spec_fn(BBox, BBox) -> Overlap,
            headings: Headings,
        |
            #[trigger] shapes(shape, shaping) && #[trigger] measures_area(area, areas) && #[trigger] measures_overlap(
                overlap,
                overlaps,
            ) && #[trigger] measures_headings(width, limit, place, headings) ==> lines@ == headings.merged(
                undominated(
                    formed(groups::contents(groups@), boxes@, shaping, groups.len() as int),
                    areas,
                    overlaps,
                    iou_threshold,
                ),
            ),
{
    assert forall|p: int| 0 <= p < groups.len() implies (#[trigger] groups[p]).len() > 0 by {
        assert(groups::contents(groups@)[p].len() > 0);
    }
    let all = form_lines(groups, boxes, shape);
    let mut sizes: Vec<Ordinal> = Vec::new();
    while sizes.len() < all.len()
        invariant
            sizes.len() <= all.len(),
            area_callable(area),
            forall|areas: spec_fn(BBox) -> Ordinal| #[trigger]
                measures_area(area, areas) ==> forall|p: int|
                    0 <= p < sizes.len() ==> #[trigger] sizes[p] == areas(all[p]),
        decreases all.len() - sizes.len(),
    {
        let size = area(&all[sizes.len()]);
        sizes.push(size);
    }
    let mut lines = nms_merged_boxes(&all, &sizes, iou_threshold, overlap);
    proof {
        assert forall|areas: spec_fn(BBox) -> Ordinal, overlaps: spec_fn(BBox, BBox) -> Overlap|
            #[trigger] measures_area(area, areas) && #[trigger] measures_overlap(overlap, overlaps) implies lines@
            == undominated(all@, areas, overlaps, iou_threshold) by {
            assert(sizes@ =~= Seq::new(all@.len(), |p: int| areas(all@[p])));
        }
    }
    merge_heading_boxes(&mut lines, width, limit, place);
    lines
}

/// What is left of overlapping lines: they come from the largest area down, none
/// dominates a later one, and every line is left or dominated by one that is left
/// and no smaller.
pub proof fn law_undominated_lines_are_settled(
    lines: Seq<BBox>,
    area: spec_fn(BBox) -> Ordinal,
    overlap: spec_fn(BBox, BBox) -> Overlap,
    iou_threshold: Ordinal,
)
    requires
        lines.len() <= usize::MAX,
    ensures
        ({
            let kept = undominated(lines, area, overlap, iou_threshold);
            &&& forall|p: int, q: int|
                0 <= p < q < kept.len() ==> area(#[trigger] kept[p]) >= area(#[trigger] kept[q]) && !rules::dominates(
                    overlap(kept[p], kept[q]),
                    iou_threshold,
                )
            &&& forall|j: int|
                0 <= j < lines.len() ==> kept.contains(#[trigger] lines[j]) || exists|p: int|
                    0 <= p < kept.len() && area(#[trigger] kept[p]) >= area(lines[j]) && rules::dominates(
                        overlap(kept[p], lines[j]),
                        iou_threshold,
                    )
            &&& forall|p: int| 0 <= p < kept.len() ==> lines.contains(#[trigger] kept[p])
        }),
{
    let areas = Seq::new(lines.len(), |p: int| area(lines[p]));
    let keys = ordering::falling(areas);
    let order = ordering::sorted_positions(keys);
    ordering::law_stable_order_exists(keys);
    let rel = dominance(lines, overlap, iou_threshold);
    let places = suppress::survivors(order, lines.len() as int, rel);
    let kept = undominated(lines, area, overlap, iou_threshold);
    assert forall|p: int, q: int| 0 <= p < q < kept.len() implies area(#[trigger] kept[p]) >= area(#[trigger] kept[q])
        && !rules::dominates(overlap(kept[p], kept[q]), iou_threshold) by {
        suppress::law_survivors_are_free(order, rel, p, q);
        let (a, b) = suppress::law_survivors_keep_order(order, rel, p, q);
        assert(ordering::comes_before(keys, order[a] as int, order[b] as int));
        assert(keys[order[a] as int] == -(area(lines[order[a] as int]) as i64));
        assert(keys[order[b] as int] == -(area(lines[order[b] as int]) as i64));
    }
    assert forall|j: int| 0 <= j < lines.len() implies kept.contains(#[trigger] lines[j]) || exists|p: int|
        0 <= p < kept.len() && area(#[trigger] kept[p]) >= area(lines[j]) && rules::dominates(
            overlap(kept[p], lines[j]),
            iou_threshold,
        ) by {
        ordering::law_permutation_covers(order, keys.len(), j);
        let k = choose|k: int| 0 <= k < order.len() && #[trigger] order[k] == j;
        if places.contains(j as usize) {
            let q = choose|q: int| 0 <= q < places.len() && places[q] == j as usize;
            assert(kept[q] == lines[j]);
        } else {
            let (p, a) = suppress::law_dropped_are_dominated_earlier(order, rel, k);
            assert(kept[p] == lines[places[p] as int]);
            assert(ordering::comes_before(keys, order[a] as int, order[k] as int));
            assert(keys[order[a] as int] == -(area(lines[order[a] as int]) as i64));
            assert(keys[j] == -(area(lines[j]) as i64));
        }
    }
    assert forall|p: int| 0 <= p < kept.len() implies lines.contains(#[trigger] kept[p]) by {
        suppress::law_survivors_are_items(order, rel, p);
        assert(kept[p] == lines[places[p] as int]);
        assert(order.contains(places[p]));
    }
}

/// Each group that is text gives a line, at its angle: the smallest box around its
/// boxes, with the highest of their confidences. The lines come in the order of
/// their groups, and there are no others.
pub proof fn law_groups_of_text_give_lines(
    groups: Seq<Seq<usize>>,
    boxes: Seq<BBox>,
    shaping: Shaping,
    k: int,
    j: int,
)
    requires
        0 <= j < k <= groups.len(),
    ensures
        ({
            let around = around_group(boxes, groups[j]);
            let (angle, shape) = shaping(groups[j], around);
            let at = formed(groups, boxes, shaping, j).len() as int;
            if rules::is_text_line(groups[j].len(), around.conf, shape) {
                &&& at < formed(groups, boxes, shaping, k).len()
                &&& formed(groups, boxes, shaping, k)[at] == (BBox { angle, ..around })
                &&& formed(groups, boxes, shaping, j + 1).len() == at + 1
            } else {
                formed(groups, boxes, shaping, j + 1).len() == at
            }
        }),
    decreases k,
{
    if j < k - 1 {
        law_groups_of_text_give_lines(groups, boxes, shaping, k - 1, j);
    }
}

/// A heading is narrower than the limit for the upper median of the widths, and
/// joins a line only if it heads it; the line then holds both, at its own angle.
pub proof fn law_only_narrow_boxes_head_lines(headings: Headings, lines: Seq<BBox>, i: int, j: int, median: Ordinal)
    requires
        0 < lines.len() <= usize::MAX,
        headings.pair_from(lines, 0, 0) == Some((i, j)),
        headings.median(lines) == median,
    ensures
        0 <= i < lines.len() && 0 <= j < lines.len() && i != j,
        (headings.width)(lines[i]) < (headings.limit)(median),
        rules::heads((headings.place)(lines[i], lines[j])),
        Set::new(|p: int| 0 <= p < lines.len() && (headings.width)(lines[p]) < median).len() <= lines.len() as int / 2,
        exists|p: int| 0 <= p < lines.len() && (headings.width)(#[trigger] lines[p]) == median,
        ({
            let joined = headings.attached(lines, i, j)[if j < i {
                j
            } else {
                j - 1
            }];
            &&& joined.covers(lines[i])
            &&& joined.covers(lines[j])
            &&& joined.angle == lines[j].angle
            &&& headings.attached(lines, i, j).len() == lines.len() - 1
        }),
{
    headings.lemma_pair_in_range(lines, 0, 0);
    bbox::law_spanning_is_least(lines[i], lines[j], lines[j]);
    let widths = headings.widths(lines);
    let keys = ordering::rising(widths);
    ordering::law_stable_order_exists(keys);
    let order = ordering::sorted_positions(keys);
    let mid = lines.len() as int / 2;
    assert(order[mid] < lines.len());
    assert((headings.width)(lines[order[mid] as int]) == median);
    let below = Set::new(|p: int| 0 <= p < lines.len() && (headings.width)(lines[p]) < median);
    let front = Seq::new(mid as nat, |p: int| order[p] as int);
    assert(below.subset_of(front.to_set())) by {
        assert forall|p: int| below.contains(p) implies front.to_set().contains(p) by {
            ordering::law_permutation_covers(order, keys.len(), p);
            let q = choose|q: int| 0 <= q < order.len() && #[trigger] order[q] == p;
            if q >= mid {
                if q > mid {
                    assert(ordering::comes_before(keys, order[mid] as int, order[q] as int));
                }
                assert(keys[order[mid] as int] == widths[order[mid] as int]);
                assert(keys[p] == widths[p]);
            } else {
                assert(front[q] == p);
            }
        }
    }
    front.lemma_cardinality_of_set();
    vstd::set_lib::lemma_len_subset(below, front.to_set());
}

/// Lines may overlap by six tenths.
pub proof fn law_line_overlap()
    ensures
        measure::is_nearest(LINE_OVERLAP, 6, 10),
{
    vstd::arithmetic::power2::lemma2_to64();
    vstd::arithmetic::power2::lemma2_to64_rest();
}

} // verus!
