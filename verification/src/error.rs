use vstd::prelude::*;

verus! {

/// Why a document could not be turned into a sprite sheet. Each failure is
/// final: nothing is retried and no partial sheet is returned.
#[derive(Debug, Clone, Copy, PartialEq, Eq, Structural)]
pub enum Error {
    /// The text is not a document: at byte `position` something starts that
    /// is neither blank nor a statement.
    Grammar { position: usize },
    /// A frame was declared with index `actual` where `expected` was next.
    FrameOrder { expected: usize, actual: u32 },
    /// A frame has no rows, has an empty first row, has rows of different
    /// lengths, or differs in size from the frames before it.
    Dimension,
    /// The cell at (`row`, `column`) of the frame at 1-based position
    /// `frame` holds `ch`, which is neither `.` nor a palette key.
    PaletteResolution { ch: u8, frame: usize, row: usize, column: usize },
}

} // verus!
