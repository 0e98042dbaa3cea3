//! Places in a source text.

use vstd::prelude::*;

verus! {

/// The byte that ends a line.
pub const NEWLINE: u8 = 0x0a;

/// A place in a source text.
///
/// `value` is the zero-based byte offset, `line` the number of line ends
/// before it, and `col` the number of bytes since the last line end.
#[derive(Debug, PartialEq, Eq, Clone, Copy, Structural)]
pub struct Position {
    pub value: u32,
    pub line: u32,
    pub col: u32,
}

/// The part of a source text between two places.
///
/// `start` is the place of the first byte and `end` the place one past the
/// last byte, so `end.value - start.value` is the number of bytes, and the
/// span between a place and itself is empty.
#[derive(Debug, PartialEq, Eq, Clone, Copy, Structural)]
pub struct Span {
    pub start: Position,
    pub end: Position,
}

/// A place as a text editor counts it: by line and by column only.
#[derive(Debug, PartialEq, Eq, Clone, Copy, Structural)]
pub struct EditorPosition {
    pub line: u32,
    pub character: u32,
}

/// A range between two editor places.
#[derive(Debug, PartialEq, Eq, Clone, Copy, Structural)]
pub struct EditorRange {
    pub start: EditorPosition,
    pub end: EditorPosition,
}

/// The place before the first byte of any text.
pub open spec fn origin() -> Position {
    Position { value: 0, line: 0, col: 0 }
}

/// The number of line ends among the first `offset` bytes of `src`.
pub open spec fn line_at(src: Seq<u8>, offset: int) -> int
    decreases offset,
{
    if offset <= 0 {
        0
    } else if offset - 1 < src.len() && src[offset - 1] == NEWLINE {
        line_at(src, offset - 1) + 1
    } else {
        line_at(src, offset - 1)
    }
}

/// The number of bytes between the last line end before `offset` and
/// `offset` itself. Offsets past the end of `src` count as bytes that end no
/// line.
pub open spec fn col_at(src: Seq<u8>, offset: int) -> int
    decreases offset,
{
    if offset <= 0 {
        0
    } else if offset - 1 < src.len() && src[offset - 1] == NEWLINE {
        0
    } else {
        col_at(src, offset - 1) + 1
    }
}

/// The place of the byte at `offset` in `src`.
pub open spec fn position_at(src: Seq<u8>, offset: int) -> Position {
    Position {
        value: offset as u32,
        line: line_at(src, offset) as u32,
        col: col_at(src, offset) as u32,
    }
}

/// The place that follows `pos` once the byte at `pos` has been read.
pub open spec fn advanced(src: Seq<u8>, pos: Position) -> Position {
    if pos.value < src.len() && src[pos.value as int] == NEWLINE {
        Position { value: (pos.value + 1) as u32, line: (pos.line + 1) as u32, col: 0 }
    } else {
        Position { value: (pos.value + 1) as u32, line: pos.line, col: (pos.col + 1) as u32 }
    }
}

/// Neither the line nor the column of a place exceeds its offset.
pub proof fn lemma_line_col_bounds(src: Seq<u8>, offset: int)
    requires
        0 <= offset,
    ensures
        0 <= line_at(src, offset) <= offset,
        0 <= col_at(src, offset) <= offset,
    decreases offset,
{
    if offset > 0 {
        lemma_line_col_bounds(src, offset - 1);
    }
}

/// Reading one byte moves from the place at `offset` to the place at
/// `offset + 1`.
pub proof fn lemma_position_step(src: Seq<u8>, offset: int)
    requires
        0 <= offset < u32::MAX,
    ensures
        position_at(src, offset + 1) == advanced(src, position_at(src, offset)),
{
    lemma_line_col_bounds(src, offset);
    lemma_line_col_bounds(src, offset + 1);
}

/// Before the first line end of a text, every place lies on line 0, in the
/// column of its offset.
pub proof fn lemma_position_on_first_line(src: Seq<u8>, offset: int)
    requires
        0 <= offset,
        forall|i: int| 0 <= i < offset && i < src.len() ==> #[trigger] src[i] != NEWLINE,
    ensures
        line_at(src, offset) == 0,
        col_at(src, offset) == offset,
    decreases offset,
{
    if offset > 0 {
        lemma_position_on_first_line(src, offset - 1);
    }
}

/// Between two offsets without a line end between them, the line stays
/// and the column grows with the offset.
pub proof fn lemma_position_within_line(src: Seq<u8>, from: int, to: int)
    requires
        0 <= from <= to,
        forall|i: int| from <= i < to && i < src.len() ==> #[trigger] src[i] != NEWLINE,
    ensures
        line_at(src, to) == line_at(src, from),
        col_at(src, to) == col_at(src, from) + (to - from),
    decreases to - from,
{
    if from < to {
        lemma_position_within_line(src, from, to - 1);
    }
}

impl Position {
    /// The span from this place to `end`.
    pub fn spanning_to(&self, end: Position) -> (span: Span)
        ensures
            span == (Span { start: *self, end }),
    {
        Span { start: *self, end }
    }

    /// The line and column of this place, without its byte offset.
    pub fn into_lsp_pos(self) -> (pos: EditorPosition)
        ensures
            pos == (EditorPosition { line: self.line, character: self.col }),
    {
        EditorPosition { line: self.line, character: self.col }
    }
}

impl Span {
    /// The editor range from the line and column of `start` to those of
    /// `end`.
    pub fn into_lsp_range(self) -> (range: EditorRange)
        ensures
            range.start == (EditorPosition { line: self.start.line, character: self.start.col }),
            range.end == (EditorPosition { line: self.end.line, character: self.end.col }),
    {
        EditorRange { start: self.start.into_lsp_pos(), end: self.end.into_lsp_pos() }
    }
}

impl Default for Position {
    fn default() -> (pos: Position)
        ensures
            pos == origin(),
    {
        Position { value: 0, line: 0, col: 0 }
    }
}

impl Default for Span {
    fn default() -> (span: Span)
        ensures
            span == (Span { start: origin(), end: origin() }),
    {
        Span { start: Position::default(), end: Position::default() }
    }
}

} // verus!
