//! Boxes around text.

use vstd::prelude::*;

use crate::ordering::Ordinal;

verus! {

/// An upright box with the confidence and the angle of the text in it.
#[derive(Clone, Copy, Debug, PartialEq, Eq, Structural)]
pub struct BBox {
    pub x1: Ordinal,
    pub y1: Ordinal,
    pub x2: Ordinal,
    pub y2: Ordinal,
    pub conf: Ordinal,
    pub angle: Ordinal,
}

/// The smaller of two ordinals.
pub open spec fn lesser(a: Ordinal, b: Ordinal) -> Ordinal {
    if b < a {
        b
    } else {
        a
    }
}

/// The larger of two ordinals.
pub open spec fn greater(a: Ordinal, b: Ordinal) -> Ordinal {
    if b > a {
        b
    } else {
        a
    }
}

/// The smaller of two ordinals.
pub fn lesser_of(a: Ordinal, b: Ordinal) -> (least: Ordinal)
    ensures
        least == lesser(a, b),
{
    if b < a {
        b
    } else {
        a
    }
}

/// The larger of two ordinals.
pub fn greater_of(a: Ordinal, b: Ordinal) -> (most: Ordinal)
    ensures
        most == greater(a, b),
{
    if b > a {
        b
    } else {
        a
    }
}

impl BBox {
    /// A level box.
    pub fn new(x1: Ordinal, y1: Ordinal, x2: Ordinal, y2: Ordinal, conf: Ordinal) -> (b: BBox)
        ensures
            b == (BBox { x1, y1, x2, y2, conf, angle: 0 }),
    {
        BBox { x1, y1, x2, y2, conf, angle: 0 }
    }

    /// A box whose text runs at an angle.
    pub fn with_angle(x1: Ordinal, y1: Ordinal, x2: Ordinal, y2: Ordinal, conf: Ordinal, angle: Ordinal) -> (b: BBox)
        ensures
            b == (BBox { x1, y1, x2, y2, conf, angle }),
    {
        BBox { x1, y1, x2, y2, conf, angle }
    }

    /// The edges: left, upper, right and lower.
    pub fn as_array(&self) -> (edges: [Ordinal; 4])
        ensures
            edges@ == seq![self.x1, self.y1, self.x2, self.y2],
    {
        [self.x1, self.y1, self.x2, self.y2]
    }

    /// The smallest box around both, with the higher confidence and the angle
    /// of `other`.
    pub open spec fn spanning(self, other: BBox) -> BBox {
        BBox {
            x1: lesser(self.x1, other.x1),
            y1: lesser(self.y1, other.y1),
            x2: greater(self.x2, other.x2),
            y2: greater(self.y2, other.y2),
            conf: greater(self.conf, other.conf),
            angle: other.angle,
        }
    }

    /// The smallest box around both.
    pub fn joined_with(&self, other: &BBox) -> (b: BBox)
        ensures
            b == self.spanning(*other),
    {
        BBox::with_angle(
            lesser_of(self.x1, other.x1),
            lesser_of(self.y1, other.y1),
            greater_of(self.x2, other.x2),
            greater_of(self.y2, other.y2),
            greater_of(self.conf, other.conf),
            other.angle,
        )
    }

    /// `inner` lies in this box, and this box's confidence is no lower.
    pub open spec fn covers(self, inner: BBox) -> bool {
        &&& self.x1 <= inner.x1
        &&& self.y1 <= inner.y1
        &&& inner.x2 <= self.x2
        &&& inner.y2 <= self.y2
        &&& inner.conf <= self.conf
    }
}

/// The smallest box around two covers both, and any box that covers both
/// covers it.
pub proof fn law_spanning_is_least(a: BBox, b: BBox, outer: BBox)
    ensures
        a.spanning(b).covers(a),
        a.spanning(b).covers(b),
        outer.covers(a) && outer.covers(b) ==> outer.covers(a.spanning(b)),
{
}

/// Each edge of the box around two is an edge of one of them, and no edge of
/// either lies outside; the angle is that of the second.
pub proof fn law_spanning_touches_both(a: BBox, b: BBox)
    ensures
        ({
            let s = a.spanning(b);
            &&& s.x1 <= a.x1 && s.x1 <= b.x1 && (s.x1 == a.x1 || s.x1 == b.x1)
            &&& s.y1 <= a.y1 && s.y1 <= b.y1 && (s.y1 == a.y1 || s.y1 == b.y1)
            &&& s.x2 >= a.x2 && s.x2 >= b.x2 && (s.x2 == a.x2 || s.x2 == b.x2)
            &&& s.y2 >= a.y2 && s.y2 >= b.y2 && (s.y2 == a.y2 || s.y2 == b.y2)
            &&& s.conf >= a.conf && s.conf >= b.conf && (s.conf == a.conf || s.conf == b.conf)
            &&& s.angle == b.angle
        }),
{
}

} // verus!
