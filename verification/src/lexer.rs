//! From the bytes of a buffer to tokens.

use vstd::prelude::*;
use vstd::string::StringSliceAdditionalSpecFns;
use vstd::utf8::*;
use crate::span::{
    advanced, lemma_line_col_bounds, lemma_position_step, lemma_position_within_line, origin,
    position_at, Position, Span, NEWLINE,
};

verus! {

/// The kinds of token.
#[derive(Debug, PartialEq, Eq, Clone, Copy, Structural)]
pub enum TokenKind {
    /// The word `todo`.
    TodoKeyword,
    /// The rest of a line.
    String,
    /// What stands between `{` and the next `}`.
    MultilineString,
    /// The end of the text.
    Eof,
}

/// A token: its kind, the text it stands for and its place in the source.
#[derive(Debug, PartialEq)]
pub struct Token<'src> {
    pub kind: TokenKind,
    pub text: &'src str,
    pub span: Span,
}

/// The longest source that the 32-bit offsets of a [`Position`] can
/// address, one place past its end included.
pub const MAX_SOURCE_LEN: usize = 0xffff_fffe;

/// The byte that opens a block, `{`.
pub const OPEN_BRACE: u8 = 0x7b;

/// The byte that closes a block, `}`.
pub const CLOSE_BRACE: u8 = 0x7d;

/// The byte `_`.
pub const UNDERSCORE: u8 = 0x5f;

/// Space, tab, line feed, form feed or carriage return.
pub open spec fn is_whitespace_byte(b: u8) -> bool {
    b == 0x20 || b == 0x09 || b == 0x0a || b == 0x0c || b == 0x0d
}

/// An ASCII letter.
pub open spec fn is_alphabetic_byte(b: u8) -> bool {
    (0x41 <= b && b <= 0x5a) || (0x61 <= b && b <= 0x7a)
}

/// An ASCII letter or `_`: what a word is made of.
pub open spec fn is_word_byte(b: u8) -> bool {
    is_alphabetic_byte(b) || b == UNDERSCORE
}

/// The bytes of the keyword, `todo`.
pub open spec fn keyword_bytes() -> Seq<u8> {
    seq![0x74u8, 0x6fu8, 0x64u8, 0x6fu8]
}

/// What a run of bytes may hold.
#[derive(Debug, PartialEq, Eq, Clone, Copy, Structural)]
pub enum Run {
    /// White space.
    Space,
    /// The bytes of a word.
    Word,
    /// Any byte but a line feed.
    Line,
    /// Any byte but `}`.
    Block,
}

impl Run {
    /// Whether a run of this kind may hold `b`.
    pub open spec fn holds(self, b: u8) -> bool {
        match self {
            Run::Space => is_whitespace_byte(b),
            Run::Word => is_word_byte(b),
            Run::Line => b != NEWLINE,
            Run::Block => b != CLOSE_BRACE,
        }
    }
}

/// Where the run that starts at `from` ends: the first offset at or after
/// `from` that lies outside `src` or holds a byte that the run may not hold.
pub open spec fn run_end(src: Seq<u8>, from: int, run: Run) -> int
    decreases src.len() - from,
{
    if 0 <= from < src.len() && run.holds(src[from]) {
        run_end(src, from + 1, run)
    } else {
        from
    }
}

/// Where the white space that starts at `from` ends.
pub open spec fn skip_whitespace(src: Seq<u8>, from: int) -> int {
    run_end(src, from, Run::Space)
}

/// Where the word that starts at `from` ends.
pub open spec fn word_end(src: Seq<u8>, from: int) -> int {
    run_end(src, from, Run::Word)
}

/// Where the line that holds `from` ends: at its line feed, or at the end of
/// `src`.
pub open spec fn line_end(src: Seq<u8>, from: int) -> int {
    run_end(src, from, Run::Line)
}

/// Where the block whose content starts at `from` ends: at the first `}`, or
/// at the end of `src`.
pub open spec fn block_end(src: Seq<u8>, from: int) -> int {
    run_end(src, from, Run::Block)
}

/// Where the span of the block that opens at `at` ends: one place past its
/// closing brace, or at the end of `src` where it has none.
pub open spec fn block_span_end(src: Seq<u8>, at: int) -> int {
    if block_end(src, at + 1) < src.len() {
        block_end(src, at + 1) + 1
    } else {
        block_end(src, at + 1)
    }
}

/// The place that an end-of-text token reports when the lexer stands at
/// `offset`: that of the last byte it went over.
pub open spec fn eof_position(src: Seq<u8>, offset: int) -> Position {
    if offset >= 1 && offset >= src.len() {
        position_at(src, offset - 1)
    } else {
        origin()
    }
}

/// What one call of the lexer yields: a token, given by its kind, the
/// offsets between which its text lies and its span, and the offset at
/// which the next call starts.
pub ghost struct Lexed {
    pub kind: TokenKind,
    pub text_start: int,
    pub text_end: int,
    pub span: Span,
    pub next: int,
}

impl Lexed {
    /// The bytes of the token's text.
    pub open spec fn text(self, src: Seq<u8>) -> Seq<u8> {
        src.subrange(self.text_start, self.text_end)
    }
}

/// The token that starts exactly at `at` in `src`, where no white space
/// stands.
///
/// At the end of the text the token is `Eof`, at the place of the last byte
/// that was read. A `{` opens a block that runs to the first `}`, or to the
/// end of the text where there is none; the braces are part of the span and
/// not of the text. A word that is exactly `todo` is the keyword. Anything
/// else runs to the end of its line. The span of a token starts at its first
/// byte and ends one place past its last.
pub open spec fn token_here(src: Seq<u8>, at: int) -> Lexed {
    if at >= src.len() {
        Lexed {
            kind: TokenKind::Eof,
            text_start: src.len() as int,
            text_end: src.len() as int,
            span: Span { start: eof_position(src, at), end: eof_position(src, at) },
            next: at,
        }
    } else if src[at] == OPEN_BRACE {
        let close = block_end(src, at + 1);
        Lexed {
            kind: TokenKind::MultilineString,
            text_start: at + 1,
            text_end: close,
            span: Span {
                start: position_at(src, at),
                end: position_at(src, block_span_end(src, at)),
            },
            next: close + 1,
        }
    } else if is_alphabetic_byte(src[at]) && src.subrange(at, word_end(src, at))
        == keyword_bytes() {
        Lexed {
            kind: TokenKind::TodoKeyword,
            text_start: at,
            text_end: at + 4,
            span: Span { start: position_at(src, at), end: position_at(src, at + 4) },
            next: at + 4,
        }
    } else {
        let eol = line_end(src, at);
        Lexed {
            kind: TokenKind::String,
            text_start: at,
            text_end: eol,
            span: Span { start: position_at(src, at), end: position_at(src, eol) },
            next: eol,
        }
    }
}

/// The token that starts at or after `from` in `src`: white space is
/// skipped, and the token that starts where it ends is taken. Once the token
/// is `Eof` it stays so from the offset that follows it.
pub open spec fn token_at(src: Seq<u8>, from: int) -> Lexed {
    token_here(src, skip_whitespace(src, from))
}

/// A run ends between its start and the end of the text, holds every byte
/// it goes over, and ends at the end of the text or on a byte it may not
/// hold.
pub proof fn lemma_run_end(src: Seq<u8>, from: int, run: Run)
    requires
        0 <= from <= src.len(),
    ensures
        from <= run_end(src, from, run) <= src.len(),
        forall|i: int| from <= i < run_end(src, from, run) ==> run.holds(#[trigger] src[i]),
        run_end(src, from, run) < src.len() ==> !run.holds(src[run_end(src, from, run)]),
    decreases src.len() - from,
{
    if from < src.len() && run.holds(src[from]) {
        lemma_run_end(src, from + 1, run);
    }
}

/// The end of a run is the only offset with the properties of
/// [`lemma_run_end`].
pub proof fn lemma_run_end_unique(src: Seq<u8>, from: int, run: Run, end: int)
    requires
        0 <= from <= end <= src.len(),
        forall|i: int| from <= i < end ==> run.holds(#[trigger] src[i]),
        end < src.len() ==> !run.holds(src[end]),
    ensures
        run_end(src, from, run) == end,
    decreases end - from,
{
    if from < end {
        lemma_run_end_unique(src, from + 1, run, end);
    }
}

/// A run that has gone over some bytes goes on from where it stands.
pub proof fn lemma_run_end_resume(src: Seq<u8>, from: int, run: Run, mid: int)
    requires
        0 <= from <= mid <= src.len(),
        forall|i: int| from <= i < mid ==> run.holds(#[trigger] src[i]),
    ensures
        run_end(src, from, run) == run_end(src, mid, run),
    decreases mid - from,
{
    if from < mid {
        lemma_run_end_resume(src, from + 1, run, mid);
    }
}

/// A run in a text that follows a prefix ends where it ends in the text
/// alone, moved by the length of the prefix.
pub proof fn lemma_run_end_after_prefix(prefix: Seq<u8>, text: Seq<u8>, from: int, run: Run)
    requires
        0 <= from <= text.len(),
    ensures
        run_end(prefix + text, prefix.len() + from, run) == prefix.len() + run_end(text, from, run),
    decreases text.len() - from,
{
    let src = prefix + text;
    if from < text.len() {
        assert(src[prefix.len() + from] == text[from]);
        if run.holds(text[from]) {
            lemma_run_end_after_prefix(prefix, text, from + 1, run);
        }
    }
}

/// Past the end of the text every token is `Eof`, and the lexer stays where
/// it is.
pub proof fn lemma_token_past_end(src: Seq<u8>, from: int)
    requires
        from >= src.len(),
    ensures
        token_at(src, from).kind == TokenKind::Eof,
        token_at(src, from).next == from,
{
}

/// A token lies within the text and ends at most one place past its end. A
/// token that is not `Eof` ends after the offset it was asked for.
pub proof fn lemma_token_at_bounds(src: Seq<u8>, from: int)
    requires
        0 <= from <= src.len() + 1,
    ensures
        from <= token_at(src, from).next <= src.len() + 1,
        token_at(src, from).kind != TokenKind::Eof ==> from < token_at(src, from).next,
        0 <= token_at(src, from).text_start <= token_at(src, from).text_end <= src.len(),
        token_at(src, from).kind == TokenKind::Eof ==> token_at(src, from).next == skip_whitespace(
            src,
            from,
        ) && skip_whitespace(src, from) >= src.len(),
{
    if from <= src.len() {
        lemma_run_end(src, from, Run::Space);
        let at = skip_whitespace(src, from);
        if at < src.len() {
            lemma_run_end(src, at + 1, Run::Block);
            lemma_run_end(src, at, Run::Word);
            lemma_run_end(src, at, Run::Line);
            let t = token_here(src, at);
            if t.kind == TokenKind::TodoKeyword {
                assert(src.subrange(at, word_end(src, at)).len() == 4);
            }
        }
    }
}

/// After `Eof` comes `Eof`: from the offset that follows an `Eof` token,
/// the same token is read again.
pub proof fn lemma_eof_stays(src: Seq<u8>, from: int)
    requires
        0 <= from <= src.len() + 1,
        token_at(src, from).kind == TokenKind::Eof,
    ensures
        token_at(src, token_at(src, from).next) == token_at(src, from),
{
    lemma_token_at_bounds(src, from);
}

/// The span of a keyword or of a text on one line covers exactly the bytes
/// of the token: it starts at the first of them, ends one place past the
/// last, and lies on one line.
pub proof fn lemma_span_covers_text(src: Seq<u8>, from: int)
    requires
        0 <= from,
        src.len() <= MAX_SOURCE_LEN,
        token_at(src, from).kind == TokenKind::TodoKeyword || token_at(src, from).kind
            == TokenKind::String,
    ensures
        token_at(src, from).span.start.value == token_at(src, from).text_start,
        token_at(src, from).span.end.value == token_at(src, from).text_end,
        token_at(src, from).span.end.value - token_at(src, from).span.start.value == token_at(
            src,
            from,
        ).text(src).len(),
        token_at(src, from).span.end.line == token_at(src, from).span.start.line,
        token_at(src, from).span.end.col - token_at(src, from).span.start.col == token_at(
            src,
            from,
        ).text(src).len(),
{
    if from > src.len() {
        lemma_token_past_end(src, from);
    } else {
        lemma_token_at_bounds(src, from);
        lemma_run_end(src, from, Run::Space);
        let at = skip_whitespace(src, from);
        let t = token_here(src, at);
        lemma_run_end(src, at, Run::Word);
        lemma_run_end(src, at, Run::Line);
        if t.kind == TokenKind::TodoKeyword {
            assert(src.subrange(at, word_end(src, at)).len() == 4);
            assert forall|i: int| at <= i < at + 4 implies #[trigger] src[i] != NEWLINE by {
                assert(Run::Word.holds(src[i]));
            }
        } else {
            assert forall|i: int| at <= i < t.text_end implies #[trigger] src[i] != NEWLINE by {
                assert(Run::Line.holds(src[i]));
            }
        }
        lemma_position_within_line(src, at, t.text_end);
        lemma_line_col_bounds(src, at);
        lemma_line_col_bounds(src, t.text_end);
    }
}

/// The span of a block starts at its opening brace and ends one place past
/// its closing brace, or at the end of the text where it has none; the text
/// of the block lies between the braces.
pub proof fn lemma_span_covers_block(src: Seq<u8>, from: int)
    requires
        0 <= from,
        src.len() <= MAX_SOURCE_LEN,
        token_at(src, from).kind == TokenKind::MultilineString,
    ensures
        token_at(src, from).span.start.value + 1 == token_at(src, from).text_start,
        token_at(src, from).text_end <= token_at(src, from).span.end.value <= token_at(
            src,
            from,
        ).text_end + 1,
        token_at(src, from).span.end.value == token_at(src, from).text_end + 1 <==> token_at(
            src,
            from,
        ).text_end < src.len(),
        token_at(src, from).text_end < src.len() ==> src[token_at(src, from).text_end]
            == CLOSE_BRACE,
{
    if from > src.len() {
        lemma_token_past_end(src, from);
    } else {
        lemma_run_end(src, from, Run::Space);
        let at = skip_whitespace(src, from);
        lemma_run_end(src, at + 1, Run::Block);
        lemma_run_end(src, at, Run::Word);
        if is_alphabetic_byte(src[at]) {
            assert(src.subrange(at, word_end(src, at)).len() == word_end(src, at) - at);
        }
    }
}

/// Whether `offset` lies at the start of a character of `src`, or past its
/// last byte.
pub open spec fn char_start(src: Seq<u8>, offset: int) -> bool {
    offset >= src.len() || !is_continuation_byte(src[offset])
}

/// In well-formed UTF-8 a character starts after every ASCII byte.
pub proof fn lemma_char_start_after_ascii(src: Seq<u8>, i: int)
    requires
        valid_utf8(src),
        0 <= i < src.len(),
        src[i] <= 0x7f,
    ensures
        char_start(src, i + 1),
    decreases src.len(),
{
    reveal_with_fuel(valid_utf8, 2);
    let k = length_of_first_scalar(src);
    let rest = pop_first_scalar(src);
    if i < k {
        assert(i == 0);
        assert(k == 1);
        if rest.len() > 0 {
            assert(rest[0] == src[1]);
        }
    } else {
        assert(rest[i - k] == src[i]);
        lemma_char_start_after_ascii(rest, i - k);
        if i - k + 1 < rest.len() {
            assert(rest[i - k + 1] == src[i + 1]);
        }
    }
}

/// An offset at which a character starts is a boundary at which a string
/// may be cut.
pub proof fn lemma_char_start_is_boundary(src: Seq<u8>, offset: int)
    requires
        valid_utf8(src),
        0 <= offset <= src.len(),
        char_start(src, offset),
    ensures
        is_char_boundary(src, offset),
{
    if offset < src.len() {
        is_char_boundary_iff_not_is_continuation_byte(src, offset);
    } else {
        is_char_boundary_start_end_of_seq(src);
    }
}

/// The byte of `src` at `offset`, if there is one.
pub open spec fn byte_at(src: Seq<u8>, offset: int) -> Option<u8> {
    if 0 <= offset < src.len() {
        Some(src[offset])
    } else {
        None
    }
}

impl Run {
    /// Whether there is a byte and a run of this kind may hold it.
    fn passes(self, b: Option<u8>) -> (r: bool)
        ensures
            r == (b is Some && self.holds(b->0)),
    {
        match b {
            Some(c) => match self {
                Run::Space => is_ascii_whitespace(c),
                Run::Word => is_ascii_alphabetic(c) || c == UNDERSCORE,
                Run::Line => c != NEWLINE,
                Run::Block => c != CLOSE_BRACE,
            },
            None => false,
        }
    }
}

/// Whether `b` is an ASCII letter.
pub fn is_ascii_alphabetic(b: u8) -> (r: bool)
    ensures
        r == is_alphabetic_byte(b),
{
    (0x41 <= b && b <= 0x5a) || (0x61 <= b && b <= 0x7a)
}

/// Whether `b` is ASCII white space.
pub fn is_ascii_whitespace(b: u8) -> (r: bool)
    ensures
        r == is_whitespace_byte(b),
{
    b == 0x20 || b == 0x09 || b == 0x0a || b == 0x0c || b == 0x0d
}

/// Whether `text` is the keyword.
fn is_keyword(text: &str) -> (r: bool)
    ensures
        r == (text.spec_bytes() == keyword_bytes()),
{
    let bytes = text.as_bytes();
    if bytes.len() != 4 {
        return false;
    }
    let r = bytes[0] == 0x74 && bytes[1] == 0x6f && bytes[2] == 0x64 && bytes[3] == 0x6f;
    proof {
        if r {
            assert(text.spec_bytes() =~= keyword_bytes());
        }
    }
    r
}

impl<'src> Token<'src> {
    pub fn new(kind: TokenKind, text: &'src str, span: Span) -> (token: Self)
        ensures
            token.kind == kind,
            token.text == text,
            token.span == span,
    {
        Token { kind, text, span }
    }
}

/// Reads a source text token by token.
pub struct Lexer<'src> {
    position: Position,
    eof_pos: Position,
    src: &'src str,
}

impl<'src> Lexer<'src> {
    /// The bytes of the text that is read.
    pub closed spec fn source(&self) -> Seq<u8> {
        self.src.spec_bytes()
    }

    /// The offset of the next byte to read.
    pub closed spec fn offset(&self) -> int {
        self.position.value as int
    }

    /// The lexer's place agrees with its offset.
    closed spec fn tracks(&self) -> bool {
        &&& self.source().len() <= MAX_SOURCE_LEN
        &&& self.position.value <= self.source().len() + 1
        &&& self.position == position_at(self.source(), self.position.value as int)
        &&& self.eof_pos == eof_position(self.source(), self.position.value as int)
    }

    /// The lexer stands between two tokens: its place agrees with its
    /// offset, and a character starts there.
    pub closed spec fn wf(&self) -> bool {
        &&& self.tracks()
        &&& char_start(self.source(), self.offset())
    }

    /// A lexer between two tokens stands at most one place past the end of
    /// its text, and its text is no longer than [`MAX_SOURCE_LEN`].
    pub proof fn lemma_wf_bounds(&self)
        requires
            self.wf(),
        ensures
            0 <= self.offset() <= self.source().len() + 1,
            self.source().len() <= MAX_SOURCE_LEN,
    {
    }

    /// A lexer at the start of `src`.
    pub fn new(src: &'src str) -> (lexer: Self)
        requires
            src.spec_bytes().len() <= MAX_SOURCE_LEN,
        ensures
            lexer.wf(),
            lexer.source() == src.spec_bytes(),
            lexer.offset() == 0,
    {
        proof {
            encode_utf8_valid_utf8(src@);
            if src.spec_bytes().len() > 0 {
                is_char_boundary_start_end_of_seq(src.spec_bytes());
                is_char_boundary_iff_not_is_continuation_byte(src.spec_bytes(), 0);
            }
        }
        Lexer { position: Position::default(), eof_pos: Position::default(), src }
    }

    /// A lexer at the start of `src`, unless `src` is longer than
    /// [`MAX_SOURCE_LEN`].
    pub fn try_new(src: &'src str) -> (lexer: Option<Self>)
        ensures
            lexer is Some == (src.spec_bytes().len() <= MAX_SOURCE_LEN),
            lexer is Some ==> {
                &&& lexer->0.wf()
                &&& lexer->0.source() == src.spec_bytes()
                &&& lexer->0.offset() == 0
            },
    {
        if src.as_bytes().len() <= MAX_SOURCE_LEN {
            Some(Lexer::new(src))
        } else {
            None
        }
    }

    /// The text between two offsets at which characters start.
    fn input_slice(&self, range: (u32, u32)) -> (text: &'src str)
        requires
            range.0 <= range.1 <= self.source().len(),
            char_start(self.source(), range.0 as int),
            char_start(self.source(), range.1 as int),
        ensures
            text.spec_bytes() == self.source().subrange(range.0 as int, range.1 as int),
    {
        let (start, end) = (range.0 as usize, range.1 as usize);
        proof {
            let src = self.source();
            encode_utf8_valid_utf8(self.src@);
            lemma_char_start_is_boundary(src, end as int);
            valid_utf8_split(src, end as int);
            let head = src.subrange(0, end as int);
            if start < end {
                assert(head[start as int] == src[start as int]);
            }
            lemma_char_start_is_boundary(head, start as int);
        }
        let (head, _) = self.src.split_at(end);
        let (_, text) = head.split_at(start);
        assert(text.spec_bytes() == self.source().subrange(start as int, end as int));
        text
    }

    fn char_at(&self, position: usize) -> (b: Option<u8>)
        ensures
            b == byte_at(self.source(), position as int),
    {
        let bytes = self.src.as_bytes();
        if position < bytes.len() {
            return Some(bytes[position]);
        }
        None
    }

    fn ch(&self) -> (b: Option<u8>)
        ensures
            b == byte_at(self.source(), self.offset()),
    {
        self.char_at(self.position.value as usize)
    }

    fn peek_n_char(&self, n: u32) -> (b: Option<u8>)
        requires
            self.offset() + 1 + n <= u32::MAX,
        ensures
            b == byte_at(self.source(), self.offset() + 1 + n),
    {
        self.char_at((self.position.value + 1 + n) as usize)
    }

    fn peek_char(&self) -> (b: Option<u8>)
        requires
            self.offset() < u32::MAX,
        ensures
            b == byte_at(self.source(), self.offset() + 1),
    {
        self.peek_n_char(0)
    }

    /// Goes over one byte.
    fn step(&mut self)
        requires
            old(self).tracks(),
            old(self).offset() <= old(self).source().len(),
        ensures
            final(self).tracks(),
            final(self).source() == old(self).source(),
            final(self).offset() == old(self).offset() + 1,
    {
        if self.peek_char().is_none() {
            self.eof_pos = self.position;
        }
        proof {
            lemma_position_step(self.source(), self.offset());
        }
        self.check_and_bump_new_line();
        self.position.value += 1;
    }

    /// Moves the line and the column over the byte at the lexer's offset.
    fn check_and_bump_new_line(&mut self)
        requires
            old(self).position == position_at(old(self).source(), old(self).offset()),
            old(self).offset() < u32::MAX,
        ensures
            final(self).position.value == old(self).position.value,
            final(self).position.line == advanced(old(self).source(), old(self).position).line,
            final(self).position.col == advanced(old(self).source(), old(self).position).col,
            final(self).eof_pos == old(self).eof_pos,
            final(self).src == old(self).src,
    {
        proof {
            lemma_line_col_bounds(self.source(), self.offset());
        }
        if self.ch() == Some(NEWLINE) {
            self.position.line += 1;
            self.position.col = 0;
        } else {
            self.position.col += 1;
        }
    }

    /// Goes on while the byte after the current one belongs to `run`, and
    /// returns the offsets between which the run lies.
    fn read_while(&mut self, run: Run) -> (range: (u32, u32))
        requires
            old(self).tracks(),
            old(self).offset() < old(self).source().len(),
        ensures
            final(self).tracks(),
            final(self).source() == old(self).source(),
            range.0 == old(self).offset(),
            range.1 == final(self).offset() + 1,
            range.1 == run_end(old(self).source(), old(self).offset() + 1, run),
            range.1 <= final(self).source().len(),
    {
        let start_pos = self.position.value;
        let ghost src = self.source();
        while run.passes(self.peek_char())
            invariant
                self.tracks(),
                self.source() == src,
                start_pos <= self.offset() < src.len(),
                run_end(src, start_pos + 1, run) == run_end(src, self.offset() + 1, run),
            decreases src.len() - self.offset(),
        {
            self.step();
        }
        (start_pos, self.position.value + 1)
    }

    /// Goes over white space.
    fn skip_whitespace(&mut self)
        requires
            old(self).wf(),
        ensures
            final(self).wf(),
            final(self).source() == old(self).source(),
            final(self).offset() == skip_whitespace(old(self).source(), old(self).offset()),
    {
        let ghost src = self.source();
        let ghost from = self.offset();
        proof {
            encode_utf8_valid_utf8(self.src@);
        }
        while Run::Space.passes(self.ch())
            invariant
                self.wf(),
                self.source() == src,
                valid_utf8(src),
                skip_whitespace(src, from) == skip_whitespace(src, self.offset()),
            decreases src.len() + 1 - self.offset(),
        {
            proof {
                lemma_char_start_after_ascii(src, self.offset());
            }
            self.step();
        }
    }

    /// The next token of the text, and `Eof` once the text is read.
    pub fn next_token(&mut self) -> (token: Token<'src>)
        requires
            old(self).wf(),
        ensures
            final(self).wf(),
            final(self).source() == old(self).source(),
            token.kind == token_at(old(self).source(), old(self).offset()).kind,
            token.text.spec_bytes() == token_at(old(self).source(), old(self).offset()).text(
                old(self).source(),
            ),
            token.text@ == decode_utf8(
                token_at(old(self).source(), old(self).offset()).text(old(self).source()),
            ),
            token.span == token_at(old(self).source(), old(self).offset()).span,
            final(self).offset() == token_at(old(self).source(), old(self).offset()).next,
    {
        let ghost src = self.source();
        let ghost from = self.offset();
        self.skip_whitespace();
        proof {
            if from <= src.len() {
                lemma_run_end(src, from, Run::Space);
            }
        }

        let ch = match self.ch() {
            Some(ch) => ch,
            None => {
                proof {
                    reveal_strlit("");
                    assert("".spec_bytes() =~= Seq::<u8>::empty());
                    let n = self.source().len() as int;
                    assert(self.source().subrange(n, n) =~= Seq::<u8>::empty());
                }
                return Token::new(TokenKind::Eof, "", self.eof_pos.spanning_to(self.eof_pos));
            },
        };

        let token = if ch == OPEN_BRACE {
            self.multiline_string()
        } else if is_ascii_alphabetic(ch) {
            self.keyword_or_identifier()
        } else {
            self.string(None)
        };

        proof {
            encode_utf8_decode_utf8(token.text@);
        }
        token
    }

    /// The token that starts with a letter: the keyword, or else the rest of
    /// the line.
    fn keyword_or_identifier(&mut self) -> (token: Token<'src>)
        requires
            old(self).wf(),
            old(self).offset() < old(self).source().len(),
            is_alphabetic_byte(old(self).source()[old(self).offset()]),
        ensures
            final(self).tracks(),
            final(self).source() == old(self).source(),
            token.kind == token_here(old(self).source(), old(self).offset()).kind,
            token.kind != TokenKind::Eof && token.kind != TokenKind::MultilineString,
            token.text.spec_bytes() == token_here(old(self).source(), old(self).offset()).text(
                old(self).source(),
            ),
            token.span == token_here(old(self).source(), old(self).offset()).span,
            final(self).offset() == token_here(old(self).source(), old(self).offset()).next,
            char_start(final(self).source(), final(self).offset()),
    {
        let location = self.position;
        let ghost src = self.source();
        let ghost at = self.offset();
        let (s, e) = self.read_while(Run::Word);
        proof {
            encode_utf8_valid_utf8(self.src@);
            lemma_run_end(src, at + 1, Run::Word);
            lemma_run_end_resume(src, at, Run::Word, at + 1);
            lemma_char_start_after_ascii(src, e - 1);
        }
        let string = self.input_slice((s, e));

        if is_keyword(string) {
            proof {
                assert(keyword_bytes().len() == 4);
                assert(src.subrange(at, e as int).len() == e - at);
            }
            self.step();
            Token::new(TokenKind::TodoKeyword, string, location.spanning_to(self.position))
        } else {
            proof {
                assert forall|i: int| at <= i < e implies Run::Line.holds(#[trigger] src[i]) by {}
                lemma_run_end_resume(src, at, Run::Line, e as int);
            }
            self.string(Some(location))
        }
    }

    /// The token that runs to the end of the line. It starts at `start`, or
    /// where the lexer stands if no start is given.
    fn string(&mut self, start: Option<Position>) -> (token: Token<'src>)
        requires
            old(self).tracks(),
            old(self).offset() < old(self).source().len(),
            old(self).source()[old(self).offset()] != NEWLINE,
            start matches Some(p) ==> {
                &&& p.value <= old(self).offset()
                &&& p == position_at(old(self).source(), p.value as int)
                &&& line_end(old(self).source(), p.value as int) == line_end(
                    old(self).source(),
                    old(self).offset(),
                )
            },
            char_start(
                old(self).source(),
                if start is Some {
                    start->0.value as int
                } else {
                    old(self).offset()
                },
            ),
        ensures
            final(self).tracks(),
            final(self).source() == old(self).source(),
            token.kind == TokenKind::String,
            ({
                let src = old(self).source();
                let from = if start is Some {
                    start->0.value as int
                } else {
                    old(self).offset()
                };
                &&& token.text.spec_bytes() == src.subrange(from, line_end(src, from))
                &&& token.span == (Span {
                    start: position_at(src, from),
                    end: position_at(src, line_end(src, from)),
                })
                &&& final(self).offset() == line_end(src, from)
            }),
            char_start(final(self).source(), final(self).offset()),
    {
        let start_pos = match start {
            Some(p) => p,
            None => self.position,
        };
        let ghost src = self.source();
        let ghost at = self.offset();

        let (_, e) = self.read_while(Run::Line);
        proof {
            lemma_run_end(src, at + 1, Run::Line);
            lemma_run_end_resume(src, at, Run::Line, at + 1);
        }

        let string = self.input_slice((start_pos.value, e));

        self.step();

        Token::new(TokenKind::String, string, start_pos.spanning_to(self.position))
    }

    /// The token that starts with `{`: what stands between it and the next
    /// `}`.
    fn multiline_string(&mut self) -> (token: Token<'src>)
        requires
            old(self).wf(),
            old(self).offset() < old(self).source().len(),
            old(self).source()[old(self).offset()] == OPEN_BRACE,
        ensures
            final(self).tracks(),
            final(self).source() == old(self).source(),
            token.kind == TokenKind::MultilineString,
            token.text.spec_bytes() == token_here(old(self).source(), old(self).offset()).text(
                old(self).source(),
            ),
            token.span == token_here(old(self).source(), old(self).offset()).span,
            final(self).offset() == token_here(old(self).source(), old(self).offset()).next,
            char_start(final(self).source(), final(self).offset()),
    {
        let start_pos = self.position;
        let ghost src = self.source();
        let ghost at = self.offset();

        let (s, e) = self.read_while(Run::Block);

        self.step();

        proof {
            encode_utf8_valid_utf8(self.src@);
            lemma_run_end(src, at + 1, Run::Block);
            lemma_char_start_after_ascii(src, at);
            if e < src.len() {
                lemma_char_start_after_ascii(src, e as int);
            }
        }
        let string = self.input_slice((s + 1, e));

        if self.ch().is_some() {
            // The closing brace belongs to the span.
            self.step();
            Token::new(TokenKind::MultilineString, string, start_pos.spanning_to(self.position))
        } else {
            let end = self.position;
            self.step();
            Token::new(TokenKind::MultilineString, string, start_pos.spanning_to(end))
        }
    }

} // impl Lexer

} // verus!
