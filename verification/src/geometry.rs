//! Operations on regions: emptiness, the gap between two regions, and the
//! split of a region into one region per line.

use crate::fuzzcheck::Region;
use vstd::prelude::*;

verus! {

impl Region {
    /// A region is empty when it ends on an earlier line than it starts, or
    /// on its starting line at a column that is not past its starting column.
    pub open spec fn is_empty(self) -> bool {
        self.lines.1 < self.lines.0 || (self.lines.1 == self.lines.0 && self.cols.1
            <= self.cols.0)
    }

    /// The region that reaches from the end of `self` to the start of `next`.
    pub open spec fn gap_to(self, next: Region) -> Region {
        Region { lines: (self.lines.1, next.lines.0), cols: (self.cols.1, next.cols.0) }
    }

    /// The number of lines that the region touches.
    pub open spec fn line_count(self) -> nat {
        if self.lines.1 < self.lines.0 {
            0
        } else {
            (self.lines.1 - self.lines.0 + 1) as nat
        }
    }

    /// The part of the region that lies on line `line`. The first line keeps the
    /// starting column and the last line the end column; elsewhere the part runs
    /// from column 0 to the largest column, which stands for the end of the line.
    pub open spec fn on_line(self, line: usize) -> Region {
        Region {
            lines: (line, line),
            cols: (
                if line == self.lines.0 {
                    self.cols.0
                } else {
                    0
                },
                if line == self.lines.1 {
                    self.cols.1
                } else {
                    usize::MAX
                },
            ),
        }
    }

    /// The parts of the region line by line, from its first line to its last.
    pub open spec fn by_line(self) -> Seq<Region> {
        Seq::new(self.line_count(), |i: int| self.on_line((self.lines.0 + i) as usize))
    }
}

/// Tells whether `region` covers no text.
pub fn region_is_empty(region: &Region) -> (empty: bool)
    ensures
        empty == region.is_empty(),
{
    region.lines.1 < region.lines.0 || (region.lines.1 == region.lines.0 && region.cols.1
        <= region.cols.0)
}

/// The region between the end of `a` and the start of `b`. It is empty when `b`
/// starts where `a` ends or before.
pub fn region_between_regions(a: &Region, b: &Region) -> (between: Region)
    ensures
        between == a.gap_to(*b),
{
    Region { lines: (a.lines.1, b.lines.0), cols: (a.cols.1, b.cols.0) }
}

/// Splits `region` into one single-line region per line that it touches.
pub fn split_region_by_line(region: &Region) -> (parts: Vec<Region>)
    requires
        region.lines.1 - region.lines.0 < usize::MAX,
    ensures
        parts@ == region.by_line(),
{
    let mut parts: Vec<Region> = Vec::new();
    if region.lines.1 < region.lines.0 {
        return parts;
    }
    let mut line: usize = region.lines.0;
    loop
        invariant_except_break
            region.lines.0 <= line <= region.lines.1,
            parts@ == region.by_line().take(line - region.lines.0),
        invariant
            region.lines.0 <= region.lines.1,
            region.lines.1 - region.lines.0 < usize::MAX,
        ensures
            parts@ == region.by_line(),
        decreases region.lines.1 - line,
    {
        let start_col: usize = if line == region.lines.0 {
            region.cols.0
        } else {
            0
        };
        let end_col: usize = if line == region.lines.1 {
            region.cols.1
        } else {
            usize::MAX
        };
        parts.push(Region { lines: (line, line), cols: (start_col, end_col) });
        assert(parts@ == region.by_line().take(line - region.lines.0 + 1));
        if line == region.lines.1 {
            assert(region.by_line().take(line - region.lines.0 + 1) == region.by_line());
            break;
        }
        line = line + 1;
    }
    parts
}

} // verus!
