//! The rules by which measured boxes and lines are joined, kept or dropped.

use vstd::prelude::*;

use crate::measure;
use crate::measure::Measure;
use crate::ordering::Ordinal;

verus! {

/// How a candidate box lies to the last box of a line that is being followed.
#[derive(Clone, Copy)]
pub struct Approach {
    /// The larger height by the smaller.
    pub height_ratio: Measure,
    /// The distance across the line, and its limit.
    pub offset: Measure,
    pub offset_limit: Measure,
    /// The distance along the line in the direction of search, and how far back
    /// a candidate may lie.
    pub along: Measure,
    pub back_limit: Measure,
    /// The free space between the boxes, and its limit.
    pub gap: Measure,
    pub gap_limit: Measure,
    /// The angle between the candidate and the line, in degrees.
    pub turn: Measure,
}

/// A candidate continues a line if it has nearly the same height, lies on the
/// line, ahead and near, and points the same way.
pub open spec fn continues(a: Approach) -> bool {
    &&& !measure::exceeds(a.height_ratio, Some(measure::ONE_AND_A_HALF))
    &&& !measure::exceeds(a.offset, a.offset_limit)
    &&& !measure::exceeds(a.back_limit, a.along)
    &&& !measure::exceeds(a.gap, a.gap_limit)
    &&& !measure::exceeds(a.turn, Some(measure::THIRTY))
    &&& measure::exceeds(Some(measure::LARGEST), a.along)
}

/// The distance of a candidate that continues the line.
pub fn distance_ahead(a: Approach) -> (distance: Option<Ordinal>)
    ensures
        distance == if continues(a) {
            a.along
        } else {
            None
        },
{
    if measure::is_above(a.height_ratio, Some(measure::ONE_AND_A_HALF)) {
        return None;
    }
    if measure::is_above(a.offset, a.offset_limit) {
        return None;
    }
    if measure::is_above(a.back_limit, a.along) {
        return None;
    }
    if measure::is_above(a.gap, a.gap_limit) {
        return None;
    }
    if measure::is_above(a.turn, Some(measure::THIRTY)) {
        return None;
    }
    if measure::is_above(Some(measure::LARGEST), a.along) {
        a.along
    } else {
        None
    }
}

/// How two upright rectangles lie to each other.
#[derive(Clone, Copy)]
pub struct Overlap {
    /// The common area by the area of both.
    pub iou: Measure,
    /// The part of the first that lies in the second.
    pub first_in_second: Measure,
    /// The part of the second that lies in the first.
    pub second_in_first: Measure,
    /// The smaller width by the larger.
    pub breadth_ratio: Measure,
    /// The common height by the smaller height.
    pub row_overlap: Measure,
    /// The common width by the smaller width.
    pub column_overlap: Measure,
    /// The common width by the width of both.
    pub breadth_overlap: Measure,
    /// The height left free between the two by their mean height.
    pub depth_gap: Measure,
}

/// One of the two has a part above `limit` in the other.
pub open spec fn contains_part(o: Overlap, limit: Ordinal) -> bool {
    measure::exceeds(o.first_in_second, Some(limit)) || measure::exceeds(o.second_in_first, Some(limit))
}

fn has_part(o: Overlap, limit: Ordinal) -> (part: bool)
    ensures
        part == contains_part(o, limit),
{
    measure::is_above(o.first_in_second, Some(limit)) || measure::is_above(o.second_in_first, Some(limit))
}

/// Two clusters overlap.
pub open spec fn overlap(o: Overlap) -> bool {
    measure::reaches(o.iou, Some(measure::TENTH)) || contains_part(o, measure::HALF)
}

/// Tells whether two clusters overlap.
pub fn do_overlap(o: Overlap) -> (yes: bool)
    ensures
        yes == overlap(o),
{
    measure::is_at_least(o.iou, Some(measure::TENTH)) || has_part(o, measure::HALF)
}

/// Two overlapping clusters stand on the same line.
pub open spec fn same_line(o: Overlap) -> bool {
    measure::exceeds(o.row_overlap, Some(measure::SEVEN_TENTHS)) && overlap(o)
}

/// Tells whether two overlapping clusters stand on the same line.
pub fn on_same_line(o: Overlap) -> (yes: bool)
    ensures
        yes == same_line(o),
{
    measure::is_above(o.row_overlap, Some(measure::SEVEN_TENTHS)) && do_overlap(o)
}

/// How a small cluster lies to a larger one.
#[derive(Clone, Copy)]
pub struct Neighbour {
    /// The larger height by the smaller.
    pub height_ratio: Measure,
    /// The angle between the two, in degrees.
    pub turn: Measure,
    /// The distance across the larger cluster's line, and its limit.
    pub offset: Measure,
    pub offset_limit: Measure,
    /// The free space along the line, and its limit.
    pub gap: Measure,
    pub gap_limit: Measure,
    /// The smaller mean width of a box, and the free space in such widths.
    pub mean_width: Measure,
    pub gap_in_widths: Measure,
}

/// The larger cluster's line takes the small cluster in.
pub open spec fn takes_in(n: Neighbour) -> bool {
    &&& !measure::exceeds(n.height_ratio, Some(measure::ONE_AND_A_HALF))
    &&& !measure::exceeds(n.turn, Some(measure::THIRTY))
    &&& !measure::exceeds(n.offset, n.offset_limit)
    &&& !measure::exceeds(n.gap, n.gap_limit)
    &&& !(measure::exceeds(n.mean_width, Some(0)) && measure::exceeds(n.gap, Some(0)) && measure::exceeds(
        n.gap_in_widths,
        Some(measure::SEVEN_TENTHS),
    ))
}

/// Tells whether the larger cluster's line takes the small cluster in.
pub fn is_taken_in(n: Neighbour) -> (yes: bool)
    ensures
        yes == takes_in(n),
{
    if measure::is_above(n.height_ratio, Some(measure::ONE_AND_A_HALF)) {
        return false;
    }
    if measure::is_above(n.turn, Some(measure::THIRTY)) {
        return false;
    }
    if measure::is_above(n.offset, n.offset_limit) {
        return false;
    }
    if measure::is_above(n.gap, n.gap_limit) {
        return false;
    }
    !(measure::is_above(n.mean_width, Some(0)) && measure::is_above(n.gap, Some(0)) && measure::is_above(
        n.gap_in_widths,
        Some(measure::SEVEN_TENTHS),
    ))
}

/// A group is cut between lines only if it runs nearly level: `tilt` is its
/// angle in degrees, without sign.
pub open spec fn level(tilt: Measure) -> bool {
    !(measure::exceeds(tilt, Some(measure::FIFTEEN)) && measure::exceeds(Some(measure::HUNDRED_AND_SIXTY_FIVE), tilt))
}

/// Tells whether a group runs nearly level.
pub fn is_level(tilt: Measure) -> (yes: bool)
    ensures
        yes == level(tilt),
{
    !(measure::is_above(tilt, Some(measure::FIFTEEN)) && measure::is_above(
        Some(measure::HUNDRED_AND_SIXTY_FIVE),
        tilt,
    ))
}

/// A line is slanted so much that it is turned level before it is read. `tilt` is
/// its angle in radians, without sign.
pub open spec fn slanted(tilt: Measure) -> bool {
    measure::exceeds(tilt, Some(measure::TWENTIETH))
}

/// Tells whether a line is to be turned level.
pub fn is_slanted(tilt: Measure) -> (yes: bool)
    ensures
        yes == slanted(tilt),
{
    measure::is_above(tilt, Some(measure::TWENTIETH))
}

/// A line runs steeper than an eighth of a turn. `tilt` is its angle in radians,
/// without sign.
pub open spec fn steep(tilt: Measure) -> bool {
    measure::exceeds(tilt, Some(measure::EIGHTH_TURN))
}

/// Tells whether a line runs steeper than an eighth of a turn.
pub fn is_steep(tilt: Measure) -> (yes: bool)
    ensures
        yes == steep(tilt),
{
    measure::is_above(tilt, Some(measure::EIGHTH_TURN))
}

/// How two groups of boxes lie to each other, both near one line.
#[derive(Clone, Copy)]
pub struct Fragments {
    /// Widths and heights of both.
    pub first_width: Measure,
    pub second_width: Measure,
    pub first_height: Measure,
    pub second_height: Measure,
    /// The angle between the two, in radians.
    pub turn: Measure,
    /// The distance of the centres across the line, and its limit.
    pub offset: Measure,
    pub offset_limit: Measure,
    /// The smaller width by the larger.
    pub breadth_ratio: Measure,
    /// The common width by the width of both.
    pub breadth_overlap: Measure,
    /// The free space along the line, and its limit.
    pub gap: Measure,
    pub gap_limit: Measure,
}

/// Two groups are fragments of one line.
pub open spec fn one_line(f: Fragments) -> bool {
    &&& !measure::reaches(Some(0), f.first_width)
    &&& !measure::reaches(Some(0), f.second_width)
    &&& !measure::reaches(Some(0), f.first_height)
    &&& !measure::reaches(Some(0), f.second_height)
    &&& !measure::exceeds(f.turn, Some(measure::THREE_DEGREES))
    &&& !measure::exceeds(f.offset, f.offset_limit)
    &&& !measure::exceeds(Some(measure::SIX_TENTHS), f.breadth_ratio)
    &&& !measure::exceeds(Some(measure::SIX_TENTHS), f.breadth_overlap) || measure::exceeds(f.gap_limit, f.gap)
}

/// Tells whether two groups are fragments of one line.
pub fn are_one_line(f: Fragments) -> (yes: bool)
    ensures
        yes == one_line(f),
{
    if measure::is_at_least(Some(0), f.first_width) || measure::is_at_least(Some(0), f.second_width)
        || measure::is_at_least(Some(0), f.first_height) || measure::is_at_least(Some(0), f.second_height) {
        return false;
    }
    if measure::is_above(f.turn, Some(measure::THREE_DEGREES)) {
        return false;
    }
    if measure::is_above(f.offset, f.offset_limit) {
        return false;
    }
    if measure::is_above(Some(measure::SIX_TENTHS), f.breadth_ratio) {
        return false;
    }
    !measure::is_above(Some(measure::SIX_TENTHS), f.breadth_overlap) || measure::is_above(f.gap_limit, f.gap)
}

/// A smaller line repeats a larger one: their widths are alike and one lies
/// mostly over the other.
pub open spec fn dominates(o: Overlap, iou_threshold: Ordinal) -> bool {
    &&& !measure::exceeds(Some(measure::SIX_TENTHS), o.breadth_ratio)
    &&& {
        ||| measure::exceeds(o.iou, Some(iou_threshold))
        ||| contains_part(o, measure::SIX_TENTHS)
        ||| {
            &&& measure::exceeds(o.row_overlap, Some(measure::SIX_TENTHS))
            &&& measure::exceeds(o.breadth_overlap, Some(measure::THREE_TENTHS))
            &&& measure::exceeds(Some(measure::ONE_AND_A_HALF), o.depth_gap)
        }
    }
}

/// Tells whether a smaller line repeats a larger one.
pub fn is_dominated(o: Overlap, iou_threshold: Ordinal) -> (yes: bool)
    ensures
        yes == dominates(o, iou_threshold),
{
    if measure::is_above(Some(measure::SIX_TENTHS), o.breadth_ratio) {
        return false;
    }
    let same_row = measure::is_above(o.row_overlap, Some(measure::SIX_TENTHS)) && measure::is_above(
        o.breadth_overlap,
        Some(measure::THREE_TENTHS),
    ) && measure::is_above(Some(measure::ONE_AND_A_HALF), o.depth_gap);
    measure::is_above(o.iou, Some(iou_threshold)) || has_part(o, measure::SIX_TENTHS) || same_row
}

/// A region repeats one that was recognized before.
pub open spec fn repeats(o: Overlap) -> bool {
    ||| measure::exceeds(o.iou, Some(measure::SIX_TENTHS))
    ||| contains_part(o, measure::SIX_TENTHS) && measure::exceeds(o.breadth_ratio, Some(measure::HALF))
    ||| {
        &&& !measure::exceeds(Some(measure::HALF), o.breadth_ratio)
        &&& measure::exceeds(o.row_overlap, Some(measure::SIX_TENTHS))
        &&& measure::exceeds(o.column_overlap, Some(measure::HALF))
    }
}

/// Tells whether a region repeats one that was recognized before.
pub fn is_repeated(o: Overlap) -> (yes: bool)
    ensures
        yes == repeats(o),
{
    if measure::is_above(o.iou, Some(measure::SIX_TENTHS)) {
        return true;
    }
    if has_part(o, measure::SIX_TENTHS) && measure::is_above(o.breadth_ratio, Some(measure::HALF)) {
        return true;
    }
    if measure::is_above(Some(measure::HALF), o.breadth_ratio) {
        return false;
    }
    measure::is_above(o.row_overlap, Some(measure::SIX_TENTHS)) && measure::is_above(
        o.column_overlap,
        Some(measure::HALF),
    )
}

/// The largest of the three overlaps of two regions.
pub open spec fn strongest(o: Overlap) -> Measure {
    measure::larger(measure::larger(o.iou, o.first_in_second), o.second_in_first)
}

/// A recognized line removes a weaker one that lies over it.
///
/// A fragment, much narrower than the line, goes if it is on the same row; a
/// line of another size stays; one of like size goes if it mostly overlaps.
pub open spec fn removes(o: Overlap) -> bool {
    let most = strongest(o);
    if measure::reaches(Some(measure::THREE_TENTHS), most) {
        false
    } else if measure::exceeds(Some(measure::THREE_TENTHS), o.breadth_ratio) {
        measure::exceeds(o.row_overlap, Some(measure::FORTY_FOUR_HUNDREDTHS))
    } else if measure::exceeds(Some(measure::HALF), o.breadth_ratio) {
        false
    } else {
        measure::exceeds(most, Some(measure::SIX_TENTHS)) || measure::exceeds(
            o.row_overlap,
            Some(measure::SEVEN_TENTHS),
        )
    }
}

/// Tells whether a recognized line removes a weaker one.
pub fn is_removed(o: Overlap) -> (yes: bool)
    ensures
        yes == removes(o),
{
    let most = measure::larger_of(measure::larger_of(o.iou, o.first_in_second), o.second_in_first);
    if measure::is_at_least(Some(measure::THREE_TENTHS), most) {
        return false;
    }
    if measure::is_above(Some(measure::THREE_TENTHS), o.breadth_ratio) {
        measure::is_above(o.row_overlap, Some(measure::FORTY_FOUR_HUNDREDTHS))
    } else if measure::is_above(Some(measure::HALF), o.breadth_ratio) {
        false
    } else {
        measure::is_above(most, Some(measure::SIX_TENTHS)) || measure::is_above(
            o.row_overlap,
            Some(measure::SEVEN_TENTHS),
        )
    }
}

/// How a narrow box lies to a wider one that it may head.
#[derive(Clone, Copy)]
pub struct Heading {
    /// The wider box's width, and twice the narrow one's.
    pub width: Measure,
    pub twice_width: Measure,
    /// The wider box's height, and three times the narrow one's.
    pub height: Measure,
    pub thrice_height: Measure,
    /// The centre of the narrow box, and the wider one's upper and lower edge.
    pub centre: Measure,
    pub top: Measure,
    pub bottom: Measure,
    /// The narrow box's left edge, and how far right it may be.
    pub left: Measure,
    pub left_limit: Measure,
    /// The free space between the two, and its limit.
    pub gap: Measure,
    pub gap_limit: Measure,
}

/// The narrow box heads the wider one's line.
pub open spec fn heads(h: Heading) -> bool {
    &&& !measure::exceeds(h.twice_width, h.width)
    &&& !measure::exceeds(h.height, h.thrice_height)
    &&& !measure::exceeds(h.top, h.centre)
    &&& !measure::exceeds(h.centre, h.bottom)
    &&& !measure::exceeds(h.left, h.left_limit)
    &&& !measure::exceeds(h.gap, h.gap_limit)
}

/// Tells whether the narrow box heads the wider one's line.
pub fn is_headed(h: Heading) -> (yes: bool)
    ensures
        yes == heads(h),
{
    if measure::is_above(h.twice_width, h.width) {
        return false;
    }
    if measure::is_above(h.height, h.thrice_height) {
        return false;
    }
    if measure::is_above(h.top, h.centre) || measure::is_above(h.centre, h.bottom) {
        return false;
    }
    if measure::is_above(h.left, h.left_limit) {
        return false;
    }
    !measure::is_above(h.gap, h.gap_limit)
}

/// What decides whether a group of boxes is a line of text.
#[derive(Clone, Copy)]
pub struct Shape {
    /// The width by the height.
    pub aspect: Measure,
    /// The height in pixels of the original image.
    pub pixel_height: Measure,
    /// The angle in degrees, without sign.
    pub tilt: Measure,
    /// Width and height on the square of 4096 by 4096.
    pub width: Measure,
    pub height: Measure,
}

/// A box is large enough to hold text: wider than 150 and higher than 40 on the
/// square of 4096 by 4096.
pub open spec fn is_large(width: Measure, height: Measure) -> bool {
    measure::exceeds(width, Some(measure::HUNDRED_AND_FIFTY)) && measure::exceeds(height, Some(measure::FORTY))
}

/// A group of `count` boxes is a line of text, not a weak single box, a drawn
/// bar, an upright row of few boxes, or a speck.
pub open spec fn is_text_line(count: nat, conf: Ordinal, s: Shape) -> bool {
    &&& !(count == 1 && conf < measure::FOUR_TENTHS)
    &&& !(measure::exceeds(s.aspect, Some(measure::FIFTEEN)) && measure::exceeds(
        Some(measure::THIRTY),
        s.pixel_height,
    ) && count < 30)
    &&& !(count < 5 && measure::exceeds(s.tilt, Some(measure::SIXTY)) && measure::exceeds(
        Some(measure::HUNDRED_AND_TWENTY),
        s.tilt,
    ))
    &&& is_large(s.width, s.height)
}

/// Tells whether a group of `count` boxes is a line of text.
pub fn is_line(count: usize, conf: Ordinal, s: Shape) -> (yes: bool)
    ensures
        yes == is_text_line(count as nat, conf, s),
{
    if count == 1 && conf < measure::FOUR_TENTHS {
        return false;
    }
    if measure::is_above(s.aspect, Some(measure::FIFTEEN)) && measure::is_above(
        Some(measure::THIRTY),
        s.pixel_height,
    ) && count < 30 {
        return false;
    }
    if count < 5 && measure::is_above(s.tilt, Some(measure::SIXTY)) && measure::is_above(
        Some(measure::HUNDRED_AND_TWENTY),
        s.tilt,
    ) {
        return false;
    }
    measure::is_above(s.width, Some(measure::HUNDRED_AND_FIFTY)) && measure::is_above(
        s.height,
        Some(measure::FORTY),
    )
}

/// A rectangle neither removes nor repeats one that it does not touch: with
/// nothing in common, no rule of overlap applies.
pub proof fn law_apart_is_untouched(o: Overlap, iou_threshold: Ordinal)
    requires
        o.iou == Some(0i32),
        o.first_in_second == Some(0i32),
        o.second_in_first == Some(0i32),
        iou_threshold >= 0,
        o.row_overlap == Some(0i32) || o.column_overlap == Some(0i32),
        o.breadth_overlap is Some && o.breadth_overlap->0 <= 0,
    ensures
        !removes(o),
        !repeats(o),
        !overlap(o),
        !same_line(o),
        !dominates(o, iou_threshold),
{
}

/// A line that lies over another of exactly its size removes it, repeats it,
/// and is on the same line.
pub proof fn law_copy_is_removed(o: Overlap, one: Ordinal)
    requires
        one > measure::SEVEN_TENTHS,
        o.iou == Some(one),
        o.first_in_second == Some(one),
        o.second_in_first == Some(one),
        o.breadth_ratio == Some(one),
        o.row_overlap == Some(one),
    ensures
        removes(o),
        repeats(o),
        same_line(o),
        dominates(o, measure::HALF),
{
}

/// When a candidate continues a line, all being numbers. It must not be more than
/// half as high again, or turned by more than thirty degrees; it must keep to the
/// limits across and along the line; and then it does. Numbers stand for what they
/// are the ordinals of: 0x3FC0_0000 for 1.5, 0x41F0_0000 for 30.
pub proof fn law_candidates_keep_to_the_line(
    height_ratio: Ordinal,
    offset: Ordinal,
    offset_limit: Ordinal,
    along: Ordinal,
    back_limit: Ordinal,
    gap: Ordinal,
    gap_limit: Ordinal,
    turn: Ordinal,
)
    ensures
        ({
            let a = Approach {
                height_ratio: Some(height_ratio),
                offset: Some(offset),
                offset_limit: Some(offset_limit),
                along: Some(along),
                back_limit: Some(back_limit),
                gap: Some(gap),
                gap_limit: Some(gap_limit),
                turn: Some(turn),
            };
            &&& height_ratio > 0x3FC0_0000 || turn > 0x41F0_0000 ==> !continues(a)
            &&& offset > offset_limit || gap > gap_limit || along < back_limit ==> !continues(a)
            &&& height_ratio <= 0x3FC0_0000 && turn <= 0x41F0_0000 && offset <= offset_limit && gap <= gap_limit && along
                >= back_limit && along < 0x7F7F_FFFF ==> continues(a)
        }),
{
}

/// Two clusters overlap from a tenth of their common area on, or where more than
/// half of one lies in the other; they are on the same line if besides more than
/// seven tenths of the lower one's rows are common.
pub proof fn law_overlap_on_numbers(o: Overlap, iou: Ordinal, first: Ordinal, second: Ordinal, row: Ordinal)
    requires
        o.iou == Some(iou),
        o.first_in_second == Some(first),
        o.second_in_first == Some(second),
        o.row_overlap == Some(row),
    ensures
        overlap(o) <==> iou >= 0x3DCC_CCCD || first > 0x3F00_0000 || second > 0x3F00_0000,
        same_line(o) <==> row > 0x3F33_3333 && (iou >= 0x3DCC_CCCD || first > 0x3F00_0000 || second > 0x3F00_0000),
{
}

/// When a larger cluster takes a small one in, all being numbers: 0x3F33_3333 stands
/// for 0.7.
pub proof fn law_small_clusters_are_taken_in(
    n: Neighbour,
    height_ratio: Ordinal,
    turn: Ordinal,
    offset: Ordinal,
    offset_limit: Ordinal,
    gap: Ordinal,
    gap_limit: Ordinal,
    mean_width: Ordinal,
    gap_in_widths: Ordinal,
)
    requires
        n == (Neighbour {
            height_ratio: Some(height_ratio),
            turn: Some(turn),
            offset: Some(offset),
            offset_limit: Some(offset_limit),
            gap: Some(gap),
            gap_limit: Some(gap_limit),
            mean_width: Some(mean_width),
            gap_in_widths: Some(gap_in_widths),
        }),
    ensures
        height_ratio > 0x3FC0_0000 || turn > 0x41F0_0000 || offset > offset_limit || gap > gap_limit ==> !takes_in(n),
        mean_width > 0 && gap > 0 && gap_in_widths > 0x3F33_3333 ==> !takes_in(n),
        height_ratio <= 0x3FC0_0000 && turn <= 0x41F0_0000 && offset <= offset_limit && gap <= gap_limit && (gap <= 0
            || gap_in_widths <= 0x3F33_3333) ==> takes_in(n),
{
}

/// A group is level up to 15 degrees and from 165 on; a line is turned from above
/// 0.05, and steep from above an eighth of a turn.
pub proof fn law_tilts_on_numbers(tilt: Ordinal)
    ensures
        level(Some(tilt)) <==> tilt <= 0x4170_0000 || tilt >= 0x4325_0000,
        slanted(Some(tilt)) <==> tilt > 0x3D4C_CCCD,
        steep(Some(tilt)) <==> tilt > 0x3F49_0FDB,
{
}

/// When two groups are fragments of one line, all being numbers: 0x3D56_7750 stands
/// for three degrees, 0x3F19_999A for 0.6.
pub proof fn law_fragments_on_numbers(
    f: Fragments,
    sizes: (Ordinal, Ordinal, Ordinal, Ordinal),
    turn: Ordinal,
    offset: Ordinal,
    offset_limit: Ordinal,
    breadth_ratio: Ordinal,
    breadth_overlap: Ordinal,
    gap: Ordinal,
    gap_limit: Ordinal,
)
    requires
        f == (Fragments {
            first_width: Some(sizes.0),
            second_width: Some(sizes.1),
            first_height: Some(sizes.2),
            second_height: Some(sizes.3),
            turn: Some(turn),
            offset: Some(offset),
            offset_limit: Some(offset_limit),
            breadth_ratio: Some(breadth_ratio),
            breadth_overlap: Some(breadth_overlap),
            gap: Some(gap),
            gap_limit: Some(gap_limit),
        }),
    ensures
        sizes.0 <= 0 || sizes.1 <= 0 || sizes.2 <= 0 || sizes.3 <= 0 ==> !one_line(f),
        turn > 0x3D56_7750 || offset > offset_limit || breadth_ratio < 0x3F19_999A ==> !one_line(f),
        breadth_overlap < 0x3F19_999A && gap >= gap_limit ==> !one_line(f),
        sizes.0 > 0 && sizes.1 > 0 && sizes.2 > 0 && sizes.3 > 0 && turn <= 0x3D56_7750 && offset <= offset_limit
            && breadth_ratio >= 0x3F19_999A && (breadth_overlap >= 0x3F19_999A || gap < gap_limit) ==> one_line(f),
{
}

/// When a line dominates, repeats or removes another, all being numbers. Of the
/// numbers, 0x3E99_999A stands for 0.3, 0x3EE1_47AE for 0.44, 0x3F00_0000 for 0.5,
/// 0x3F19_999A for 0.6, 0x3F33_3333 for 0.7 and 0x3FC0_0000 for 1.5.
pub proof fn law_lines_on_numbers(
    o: Overlap,
    iou: Ordinal,
    first: Ordinal,
    second: Ordinal,
    ratio: Ordinal,
    row: Ordinal,
    column: Ordinal,
    breadth: Ordinal,
    depth: Ordinal,
    threshold: Ordinal,
)
    requires
        o == (Overlap {
            iou: Some(iou),
            first_in_second: Some(first),
            second_in_first: Some(second),
            breadth_ratio: Some(ratio),
            row_overlap: Some(row),
            column_overlap: Some(column),
            breadth_overlap: Some(breadth),
            depth_gap: Some(depth),
        }),
    ensures
        dominates(o, threshold) <==> ratio >= 0x3F19_999A && (iou > threshold || first > 0x3F19_999A || second > 0x3F19_999A
            || row > 0x3F19_999A && breadth > 0x3E99_999A && depth < 0x3FC0_0000),
        iou > 0x3F19_999A ==> repeats(o),
        ratio > 0x3F00_0000 && (first > 0x3F19_999A || second > 0x3F19_999A) ==> repeats(o),
        ratio >= 0x3F00_0000 && row > 0x3F19_999A && column > 0x3F00_0000 ==> repeats(o),
        iou <= 0x3F19_999A && ratio < 0x3F00_0000 ==> !repeats(o),
        iou <= 0x3F19_999A && first <= 0x3F19_999A && second <= 0x3F19_999A && (row <= 0x3F19_999A || column <= 0x3F00_0000)
            ==> !repeats(o),
        iou <= 0x3E99_999A && first <= 0x3E99_999A && second <= 0x3E99_999A ==> !removes(o),
        (iou > 0x3E99_999A || first > 0x3E99_999A || second > 0x3E99_999A) && ratio < 0x3E99_999A ==> (removes(o) <==> row
            > 0x3EE1_47AE),
        0x3E99_999A <= ratio < 0x3F00_0000 ==> !removes(o),
        (iou > 0x3E99_999A || first > 0x3E99_999A || second > 0x3E99_999A) && ratio >= 0x3F00_0000 ==> (removes(o) <==> iou
            > 0x3F19_999A || first > 0x3F19_999A || second > 0x3F19_999A || row > 0x3F33_3333),
{
}

/// When a narrow box heads a line, all being numbers.
pub proof fn law_headings_on_numbers(
    h: Heading,
    width: Ordinal,
    twice_width: Ordinal,
    height: Ordinal,
    thrice_height: Ordinal,
    centre: Ordinal,
    top: Ordinal,
    bottom: Ordinal,
    left: Ordinal,
    left_limit: Ordinal,
    gap: Ordinal,
    gap_limit: Ordinal,
)
    requires
        h == (Heading {
            width: Some(width),
            twice_width: Some(twice_width),
            height: Some(height),
            thrice_height: Some(thrice_height),
            centre: Some(centre),
            top: Some(top),
            bottom: Some(bottom),
            left: Some(left),
            left_limit: Some(left_limit),
            gap: Some(gap),
            gap_limit: Some(gap_limit),
        }),
    ensures
        heads(h) <==> width >= twice_width && height <= thrice_height && top <= centre <= bottom && left <= left_limit
            && gap <= gap_limit,
{
}

/// Which groups are lines of text, all being numbers: never one no wider than 150 or
/// no higher than 40 on the square of 4096, a single box below a confidence of 0.4, a
/// bar of fewer than 30 boxes that is more than 15 times as wide as high and lower
/// than 30 pixels, or fewer than five boxes between 60 and 120 degrees; and else
/// always.
pub proof fn law_text_lines_on_numbers(
    count: nat,
    conf: Ordinal,
    s: Shape,
    aspect: Ordinal,
    pixel_height: Ordinal,
    tilt: Ordinal,
    width: Ordinal,
    height: Ordinal,
)
    requires
        s == (Shape {
            aspect: Some(aspect),
            pixel_height: Some(pixel_height),
            tilt: Some(tilt),
            width: Some(width),
            height: Some(height),
        }),
    ensures
        width <= 0x4316_0000 || height <= 0x4220_0000 ==> !is_text_line(count, conf, s),
        count == 1 && conf < 0x3ECC_CCCD ==> !is_text_line(count, conf, s),
        count < 30 && aspect > 0x4170_0000 && pixel_height < 0x41F0_0000 ==> !is_text_line(count, conf, s),
        count < 5 && 0x4270_0000 < tilt < 0x42F0_0000 ==> !is_text_line(count, conf, s),
        width > 0x4316_0000 && height > 0x4220_0000 && (count != 1 || conf >= 0x3ECC_CCCD) && (count >= 30 || aspect
            <= 0x4170_0000 || pixel_height >= 0x41F0_0000) && (count >= 5 || tilt <= 0x4270_0000 || tilt >= 0x42F0_0000)
            ==> is_text_line(count, conf, s),
{
}

} // verus!
