//! Positions and rectangles of a file, in fixed point.

use crate::layout::UNITS;
use vstd::prelude::*;

verus! {

/// A distance within a file: `x` in units of `1 / UNITS` font heights, and `y` in
/// units of `1 / UNITS` lines.
#[derive(Clone, Copy, Debug, PartialEq, Eq, Structural)]
pub struct FileVec {
    pub x: i128,
    pub y: i128,
}

/// Represents a position within the file, in such a way that as the file gets
/// loaded the scroll position stays as still as possible.
///
/// Scrolling model:
/// There are 3 scrolling methods available to the user:
/// 1. Scrolling through the mouse wheel or dragging the screen.
///     This method is very smooth, and maps simply to modifying the scroll deltas.
///     This scrolling is clamped to the range of the loaded segment that contains
///     `base_offset`.
/// 2. Scrolling through the scroll bar.
///     This method can perform long scroll jumps, but is still considered "smooth"
///     in the sense that it can only jump within the currently loaded segment.
/// 3. Scrolling directly to an offset.
///     This is the roughest method to scroll, as it may exit the currently loaded
///     segment and start loading another segment.
#[derive(Clone, Copy, Debug, PartialEq, Eq, Structural)]
pub struct FilePos {
    /// A reference offset within the file.
    /// This offset is only modified when scrolling jaggedly (ie. jumping directly
    /// to a file offset).
    pub base_offset: i64,
    /// A difference in visual X position from the base offset, in units of
    /// `1 / UNITS` font heights.
    pub delta_x: i128,
    /// A difference in visual Y position from the base offset, in units of
    /// `1 / UNITS` lines.
    pub delta_y: i128,
}

/// Represents a rectangle of the file.
/// Does **NOT** represent a linear start-end range, it literally represents
/// a rectangle view into the file.
#[derive(Clone, Copy, Debug, PartialEq, Eq, Structural)]
pub struct FileRect {
    /// The top-left corner.
    pub corner: FilePos,
    /// The size of this view.
    pub size: FileVec,
}

/// The whole lines in a distance, rounded down.
pub open spec fn lines_below(y: int) -> int {
    y / 0x100_0000
}

/// The whole lines in a distance, rounded up.
pub open spec fn lines_above(y: int) -> int {
    -lines_below(-y)
}

/// The number nearest to `n` that fits a line number.
pub open spec fn to_line(n: int) -> int {
    if n < i64::MIN {
        i64::MIN as int
    } else if n > i64::MAX {
        i64::MAX as int
    } else {
        n
    }
}

/// The number nearest to `n` that fits a distance.
pub open spec fn to_distance(n: int) -> int {
    if n < i128::MIN {
        i128::MIN as int
    } else if n > i128::MAX {
        i128::MAX as int
    } else {
        n
    }
}

/// Adds two distances, as far as they fit.
pub fn add_distance(a: i128, b: i128) -> (r: i128)
    ensures
        r == to_distance(a + b),
{
    match a.checked_add(b) {
        Some(sum) => sum,
        None => if a < 0 {
            i128::MIN
        } else {
            i128::MAX
        },
    }
}

/// Rounds a distance down to whole lines.
pub fn floor_lines(y: i128) -> (r: i64)
    ensures
        r == to_line(lines_below(y as int)),
{
    let n: i128 = if y >= 0 {
        y / UNITS
    } else {
        let m: i128 = -(y + 1);
        assert((m + 0x100_0000) / 0x100_0000 == -(y as int / 0x100_0000)) by {
            assert(m == -y - 1);
        }
        -(m / UNITS) - 1
    };
    if n < i64::MIN as i128 {
        i64::MIN
    } else if n > i64::MAX as i128 {
        i64::MAX
    } else {
        n as i64
    }
}

/// Rounds a distance up to whole lines.
pub fn ceil_lines(y: i128) -> (r: i64)
    ensures
        r == to_line(lines_above(y as int)),
{
    let n: i128 = if y <= 0 {
        if y == i128::MIN {
            -0x80_0000_0000_0000_0000_0000_0000
        } else {
            -((-y) / UNITS)
        }
    } else {
        (y - 1) / UNITS + 1
    };
    if n < i64::MIN as i128 {
        i64::MIN
    } else if n > i64::MAX as i128 {
        i64::MAX
    } else {
        n as i64
    }
}

impl FilePos {
    /// Returns the base offset, the Y position and X position.
    /// Floors the Y position (which is usually what you want to do).
    pub fn floor(&self) -> (r: (i64, i64, i128))
        ensures
            r.0 == self.base_offset,
            r.1 == to_line(lines_below(self.delta_y as int)),
            r.2 == self.delta_x,
    {
        (self.base_offset, floor_lines(self.delta_y), self.delta_x)
    }

    /// The position `off` away, with the same base.
    pub fn offset(&self, off: FileVec) -> (r: FilePos)
        ensures
            r.base_offset == self.base_offset,
            r.delta_x == to_distance(self.delta_x + off.x),
            r.delta_y == to_distance(self.delta_y + off.y),
    {
        FilePos {
            base_offset: self.base_offset,
            delta_x: add_distance(self.delta_x, off.x),
            delta_y: add_distance(self.delta_y, off.y),
        }
    }
}

/// The number in `[lo, hi]` that is nearest to `n`.
pub open spec fn nearest(n: int, lo: int, hi: int) -> int {
    if n < lo {
        lo
    } else if n > hi {
        hi
    } else {
        n
    }
}

/// The number in `[lo, hi]` that is nearest to `n`.
pub fn clamp(n: i128, lo: i128, hi: i128) -> (r: i128)
    requires
        lo <= hi,
    ensures
        r == nearest(n as int, lo as int, hi as int),
{
    if n < lo {
        lo
    } else if n > hi {
        hi
    } else {
        n
    }
}

impl FileRect {
    /// The right edge, from the base.
    pub open spec fn right(self) -> int {
        to_distance(self.corner.delta_x + self.size.x)
    }

    /// The lower edge, from the base.
    pub open spec fn bottom(self) -> int {
        to_distance(self.corner.delta_y + self.size.y)
    }

    /// The position in the rectangle that is nearest to `pos`.
    pub fn clamp_pos(&self, pos: FilePos) -> (r: FilePos)
        requires
            self.size.x >= 0,
            self.size.y >= 0,
        ensures
            r.base_offset == pos.base_offset,
            r.delta_x == nearest(pos.delta_x as int, self.corner.delta_x as int, self.right()),
            r.delta_y == nearest(pos.delta_y as int, self.corner.delta_y as int, self.bottom()),
    {
        FilePos {
            base_offset: pos.base_offset,
            delta_x: clamp(
                pos.delta_x,
                self.corner.delta_x,
                add_distance(self.corner.delta_x, self.size.x),
            ),
            delta_y: clamp(
                pos.delta_y,
                self.corner.delta_y,
                add_distance(self.corner.delta_y, self.size.y),
            ),
        }
    }
}

} // verus!
