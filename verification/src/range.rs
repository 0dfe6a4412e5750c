//! A single directional selection span over character offsets.

use vstd::prelude::*;

use crate::changeset::{spec_insert_sum, spec_map_pos, Assoc, Change, ChangeSet};
use crate::text::TextView;

verus! {

/// Absolute difference of two character offsets.
pub open spec fn spec_abs_difference(x: usize, y: usize) -> int {
    if x < y {
        y - x
    } else {
        x - y
    }
}

/// Absolute difference of two character offsets.
pub fn abs_difference(x: usize, y: usize) -> (r: usize)
    ensures
        r == spec_abs_difference(x, y),
{
    if x < y {
        y - x
    } else {
        x - y
    }
}

/// A single selection range: `anchor` is the stationary end when extending,
/// `head` the moving end. `anchor < head` is a forward-drawn range,
/// `anchor > head` a backward-drawn one; equality denotes a bare cursor.
/// The occupied span is `[from, to)` except in `fragment`, which is
/// deliberately inclusive on both ends.
#[derive(Debug, Clone, Copy, PartialEq, Eq, Structural)]
pub struct Range {
    /// The anchor of the range: the side that does not move when extending.
    pub anchor: usize,
    /// The head of the range, moved when extending.
    pub head: usize,
}

impl Range {
    /// Low end of the span: the smaller of anchor and head.
    pub open spec fn spec_from(self) -> usize {
        if self.anchor <= self.head {
            self.anchor
        } else {
            self.head
        }
    }

    /// High end of the span: the larger of anchor and head.
    pub open spec fn spec_to(self) -> usize {
        if self.anchor <= self.head {
            self.head
        } else {
            self.anchor
        }
    }

    /// A range is empty when it is a bare cursor.
    pub open spec fn spec_is_empty(self) -> bool {
        self.anchor == self.head
    }

    /// Overlap test: a cursor probes with `<=` so that it registers overlap
    /// with a range it merely touches; a non-empty range must genuinely
    /// interleave (`<`).
    pub open spec fn spec_overlaps(self, other: Range) -> bool {
        if self.spec_is_empty() {
            self.spec_from() <= other.spec_to()
        } else {
            self.spec_from() < other.spec_to()
        }
    }

    /// Containment: always false for a cursor; forward ranges hold
    /// `anchor <= pos < head`, backward ranges hold `head < pos <= anchor`.
    pub open spec fn spec_contains(self, pos: usize) -> bool {
        if self.anchor < self.head {
            self.anchor <= pos && pos < self.head
        } else if self.head < self.anchor {
            self.head < pos && pos <= self.anchor
        } else {
            false
        }
    }

    pub fn new(anchor: usize, head: usize) -> (r: Range)
        ensures
            r == (Range { anchor, head }),
    {
        Range { anchor, head }
    }

    /// Start of the range.
    pub fn from(&self) -> (r: usize)
        ensures
            r == self.spec_from(),
    {
        if self.anchor <= self.head {
            self.anchor
        } else {
            self.head
        }
    }

    /// End of the range.
    pub fn to(&self) -> (r: usize)
        ensures
            r == self.spec_to(),
    {
        if self.anchor <= self.head {
            self.head
        } else {
            self.anchor
        }
    }

    /// `true` when head and anchor are at the same position.
    pub fn is_empty(&self) -> (r: bool)
        ensures
            r == self.spec_is_empty(),
    {
        self.anchor == self.head
    }

    /// Check two ranges for overlap; cursor overlap is checked differently.
    pub fn overlaps(&self, other: &Range) -> (r: bool)
        ensures
            r == self.spec_overlaps(*other),
    {
        if self.is_empty() {
            self.from() <= other.to()
        } else {
            self.from() < other.to()
        }
    }

    /// Whether the position lies inside the span. A forward range includes
    /// its anchor and excludes its head; a backward range excludes its head
    /// and includes its anchor.
    pub fn contains(&self, pos: usize) -> (r: bool)
        ensures
            r == self.spec_contains(pos),
    {
        if self.is_empty() {
            return false;
        }
        if self.anchor < self.head {
            self.anchor <= pos && pos < self.head
        } else {
            self.head < pos && pos <= self.anchor
        }
    }

    /// The range after remapping both endpoints through the queued edits,
    /// each with the after-insertion bias: an insertion exactly at an
    /// endpoint pushes that endpoint past the inserted text.
    pub open spec fn spec_map(self, cs: Seq<Change>) -> Range {
        Range {
            anchor: spec_map_pos(cs, self.anchor, Assoc::After) as usize,
            head: spec_map_pos(cs, self.head, Assoc::After) as usize,
        }
    }

    /// Map a range through a set of changes. Returns a new range
    /// representing the same position after the changes are applied.
    pub fn map(self, changes: &ChangeSet) -> (r: Range)
        requires
            changes.inv(),
            self.anchor + spec_insert_sum(changes@) <= usize::MAX,
            self.head + spec_insert_sum(changes@) <= usize::MAX,
        ensures
            r == self.spec_map(changes@),
            r.anchor == spec_map_pos(changes@, self.anchor, Assoc::After),
            r.head == spec_map_pos(changes@, self.head, Assoc::After),
    {
        let anchor = changes.map_pos(self.anchor, Assoc::After);
        let head = changes.map_pos(self.head, Assoc::After);
        if self.anchor == anchor && self.head == head {
            return self;
        }
        Range { anchor, head }
    }

    /// The range produced by `extend`: if the anchor already lies within
    /// `[from, to]` the result is exactly `{anchor: from, head: to}`;
    /// otherwise the anchor stays put and the head becomes whichever bound
    /// lies farther from it.
    pub open spec fn spec_extend(self, from: usize, to: usize) -> Range {
        if from <= self.anchor && self.anchor <= to {
            Range { anchor: from, head: to }
        } else {
            Range {
                anchor: self.anchor,
                head: if spec_abs_difference(from, self.anchor) > spec_abs_difference(
                    to,
                    self.anchor,
                ) {
                    from
                } else {
                    to
                },
            }
        }
    }

    /// Extend the range so that it covers at least `[from, to]`.
    pub fn extend(&self, from: usize, to: usize) -> (r: Range)
        requires
            from <= to,
        ensures
            r == self.spec_extend(from, to),
            r.spec_from() <= from,
            to <= r.spec_to(),
    {
        if from <= self.anchor && to >= self.anchor {
            return Range { anchor: from, head: to };
        }
        Range {
            anchor: self.anchor,
            head: if abs_difference(from, self.anchor) > abs_difference(to, self.anchor) {
                from
            } else {
                to
            },
        }
    }

    /// The substring covered by the range, inclusive on both ends: one
    /// character more than the exclusive `[from, to)` span that
    /// `contains` and `overlaps` use. This asymmetry is deliberate and
    /// callers depend on the extra character.
    pub fn fragment(&self, text: &TextView) -> (out: Vec<char>)
        requires
            self.spec_to() + 1 <= text@.len(),
        ensures
            out@ == text@.subrange(self.spec_from() as int, self.spec_to() + 1),
            out@.len() == self.spec_to() - self.spec_from() + 1,
    {
        let n = text.len();
        assert(self.spec_to() + 1 <= n);
        text.slice_chars(self.from(), self.to() + 1)
    }
}

} // verus!
