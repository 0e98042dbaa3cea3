//! From tokens to items: each keyword with the text that follows it.

use vstd::prelude::*;
use vstd::utf8::decode_utf8;
use vstd::string::{StringExecFns, StringSliceAdditionalSpecFns};
use crate::lexer::{
    is_whitespace_byte, keyword_bytes, lemma_eof_stays, lemma_run_end,
    lemma_run_end_after_prefix, lemma_run_end_unique, lemma_token_at_bounds,
    lemma_token_past_end, token_at, token_here, word_end, Lexed, Lexer, Run, Token, TokenKind,
    MAX_SOURCE_LEN, OPEN_BRACE,
};
use crate::normalize::{normalize, normalized};
use crate::span::{lemma_position_on_first_line, position_at, Position, Span, NEWLINE};

verus! {

/// One task as it stands in the text: its message and where it was found.
#[derive(Debug, PartialEq, Eq)]
pub struct TodoItem {
    pub message: String,
    pub span: Span,
}

/// A task, by the form in which it was written.
#[derive(Debug, PartialEq, Eq)]
pub enum Item {
    /// Written on one line, after the keyword.
    OneLine(TodoItem),
    /// Written as a block between braces.
    Multiline(TodoItem),
}

/// What is wrong with a piece of the text.
#[derive(Debug, PartialEq, Eq, Clone, Copy, Structural)]
pub enum ParseError {
    /// Text that no keyword introduces.
    ExtraText(Span),
    /// The text ends where a token was expected.
    UnexpectedEof(Span),
    /// A token of another kind than the expected one.
    UnexpectedToken { expected: TokenKind, found: TokenKind, span: Span },
}

/// A parsed text: its items and errors, in the order of the text.
#[derive(Debug, PartialEq, Eq)]
pub struct Text {
    pub items: Vec<Result<Item, ParseError>>,
}

/// A [`TodoItem`] with its message as a sequence of characters.
pub ghost struct TodoItemView {
    pub message: Seq<char>,
    pub span: Span,
}

/// An [`Item`] with its message as a sequence of characters.
pub ghost enum ItemView {
    OneLine(TodoItemView),
    Multiline(TodoItemView),
}

impl ItemView {
    /// The task, whatever its form.
    pub open spec fn todo(self) -> TodoItemView {
        match self {
            ItemView::OneLine(t) => t,
            ItemView::Multiline(t) => t,
        }
    }
}

/// One entry of a parsed text.
pub type Outcome = Result<ItemView, ParseError>;

impl View for TodoItem {
    type V = TodoItemView;

    open spec fn view(&self) -> TodoItemView {
        TodoItemView { message: self.message@, span: self.span }
    }
}

impl View for Item {
    type V = ItemView;

    open spec fn view(&self) -> ItemView {
        match self {
            Item::OneLine(t) => ItemView::OneLine(t@),
            Item::Multiline(t) => ItemView::Multiline(t@),
        }
    }
}

/// The view of one entry of a parsed text.
pub open spec fn outcome_view(r: Result<Item, ParseError>) -> Outcome {
    match r {
        Ok(item) => Ok(item@),
        Err(e) => Err(e),
    }
}

impl View for Text {
    type V = Seq<Outcome>;

    open spec fn view(&self) -> Seq<Outcome> {
        self.items@.map_values(|r: Result<Item, ParseError>| outcome_view(r))
    }
}

/// What the token after a keyword makes of the keyword: a task where it is
/// text, an error where it is another keyword or the end of the text. The
/// message of a block is its canonical text.
pub open spec fn todo_outcome(src: Seq<u8>, token: Lexed) -> Outcome {
    match token.kind {
        TokenKind::TodoKeyword => Err(
            ParseError::UnexpectedToken {
                expected: TokenKind::String,
                found: TokenKind::TodoKeyword,
                span: token.span,
            },
        ),
        TokenKind::String => Ok(
            ItemView::OneLine(
                TodoItemView { message: decode_utf8(token.text(src)), span: token.span },
            ),
        ),
        TokenKind::MultilineString => Ok(
            ItemView::Multiline(
                TodoItemView {
                    message: normalized(decode_utf8(token.text(src))),
                    span: token.span,
                },
            ),
        ),
        TokenKind::Eof => Err(ParseError::UnexpectedEof(token.span)),
    }
}

/// The entries that the text yields from `from` on, one for each keyword
/// with the token after it and one for each text without a keyword, up to
/// the end of the text.
pub open spec fn parse_items(src: Seq<u8>, from: int) -> Seq<Outcome>
    decreases src.len() + 2 - from,
    when 0 <= from
    via parse_items_decreases
{
    let first = token_at(src, from);
    match first.kind {
        TokenKind::Eof => Seq::empty(),
        TokenKind::TodoKeyword => {
            let second = token_at(src, first.next);
            seq![todo_outcome(src, second)] + parse_items(src, second.next)
        },
        _ => seq![Err(ParseError::ExtraText(first.span))] + parse_items(src, first.next),
    }
}

#[via_fn]
proof fn parse_items_decreases(src: Seq<u8>, from: int) {
    if from <= src.len() + 1 {
        lemma_token_at_bounds(src, from);
        lemma_token_at_bounds(src, token_at(src, from).next);
    } else {
        lemma_token_past_end(src, from);
    }
}

/// The entries of a text that is parsed from `from` on: a text with no
/// token at all yields one error, that it ended unexpectedly, and any other
/// text yields [`parse_items`].
pub open spec fn parse_text(src: Seq<u8>, from: int) -> Seq<Outcome> {
    let first = token_at(src, from);
    if first.kind == TokenKind::Eof {
        seq![Err(ParseError::UnexpectedEof(first.span))]
    } else {
        parse_items(src, from)
    }
}

/// How a kind of token is called in a message.
pub open spec fn kind_name(kind: TokenKind) -> Seq<char> {
    match kind {
        TokenKind::TodoKeyword => "todo keyword"@,
        TokenKind::String => "text"@,
        TokenKind::MultilineString => "text block"@,
        TokenKind::Eof => "EOF"@,
    }
}

/// What an error says to the user.
pub open spec fn error_message(error: ParseError) -> Seq<char> {
    match error {
        ParseError::ExtraText(_) => "dangling text; without todo"@,
        ParseError::UnexpectedEof(_) => "reached an unexpected end of file"@,
        ParseError::UnexpectedToken { expected, found, .. } => "expected a "@ + kind_name(expected)
            + ", but found a "@ + kind_name(found),
    }
}

/// Where an error lies in the text.
pub open spec fn error_span(error: ParseError) -> Span {
    match error {
        ParseError::ExtraText(span) => span,
        ParseError::UnexpectedEof(span) => span,
        ParseError::UnexpectedToken { span, .. } => span,
    }
}

impl TokenKind {
    /// How this kind of token is called in a message.
    pub fn name(&self) -> (name: &'static str)
        ensures
            name@ == kind_name(*self),
    {
        match self {
            TokenKind::TodoKeyword => "todo keyword",
            TokenKind::String => "text",
            TokenKind::MultilineString => "text block",
            TokenKind::Eof => "EOF",
        }
    }
}

impl ParseError {
    /// Where the error lies in the text.
    pub fn span(&self) -> (span: Span)
        ensures
            span == error_span(*self),
    {
        match self {
            ParseError::ExtraText(s) => *s,
            ParseError::UnexpectedEof(s) => *s,
            ParseError::UnexpectedToken { span, .. } => *span,
        }
    }

    /// What the error says to the user.
    pub fn message(&self) -> (message: String)
        ensures
            message@ == error_message(*self),
    {
        match self {
            ParseError::ExtraText(_) => "dangling text; without todo".to_owned(),
            ParseError::UnexpectedEof(_) => "reached an unexpected end of file".to_owned(),
            ParseError::UnexpectedToken { expected, found, .. } => {
                let mut message = "expected a ".to_owned();
                message.append(expected.name());
                message.append(", but found a ");
                message.append(found.name());
                message
            },
        }
    }
}

/// Groups the tokens of a lexer into items.
pub struct Parser<'src> {
    lexer: Lexer<'src>,
}

impl<'src> Parser<'src> {
    /// The bytes of the text that is parsed.
    pub closed spec fn source(&self) -> Seq<u8> {
        self.lexer.source()
    }

    /// The offset from which the next token is read.
    pub closed spec fn offset(&self) -> int {
        self.lexer.offset()
    }

    /// The parser stands between two tokens of its text.
    pub closed spec fn wf(&self) -> bool {
        self.lexer.wf()
    }

    /// A parser that reads on from where `lexer` stands.
    pub fn new(lexer: Lexer<'src>) -> (parser: Self)
        requires
            lexer.wf(),
        ensures
            parser.wf(),
            parser.source() == lexer.source(),
            parser.offset() == lexer.offset(),
    {
        Self { lexer }
    }

    fn next_token(&mut self) -> (token: Token<'src>)
        requires
            old(self).wf(),
        ensures
            final(self).wf(),
            final(self).source() == old(self).source(),
            token.kind == token_at(old(self).source(), old(self).offset()).kind,
            token.text@ == decode_utf8(
                token_at(old(self).source(), old(self).offset()).text(old(self).source()),
            ),
            token.span == token_at(old(self).source(), old(self).offset()).span,
            final(self).offset() == token_at(old(self).source(), old(self).offset()).next,
    {
        self.lexer.next_token()
    }

    /// Parses the rest of the text: one entry for each keyword with the
    /// token after it, one for each text without a keyword, in the order of
    /// the text. A mistake is recorded and the parsing goes on.
    pub fn parse(&mut self) -> (text: Text)
        requires
            old(self).wf(),
        ensures
            final(self).wf(),
            final(self).source() == old(self).source(),
            text@ == parse_text(old(self).source(), old(self).offset()),
            token_at(final(self).source(), final(self).offset()).kind == TokenKind::Eof,
    {
        let ghost src = self.source();
        let ghost start = self.offset();
        let mut items: Vec<Result<Item, ParseError>> = Vec::new();
        proof {
            lemma_offset_bounds(&self.lexer);
        }

        let mut token = self.next_token();

        if token.kind == TokenKind::Eof {
            items.push(Err(ParseError::UnexpectedEof(token.span)));
            let text = Text { items };
            proof {
                lemma_eof_stays(src, start);
                assert(text@ =~= parse_text(src, start));
            }
            return text;
        }
        let ghost mut at = start;
        proof {
            assert(parse_items(src, start) =~= Seq::<Outcome>::empty() + parse_items(src, at));
        }

        while token.kind != TokenKind::Eof
            invariant
                self.wf(),
                self.source() == src,
                0 <= at <= src.len() + 1,
                token.kind == token_at(src, at).kind,
                token.span == token_at(src, at).span,
                self.offset() == token_at(src, at).next,
                parse_items(src, start) == items@.map_values(
                    |r: Result<Item, ParseError>| outcome_view(r),
                ) + parse_items(src, at),
            decreases src.len() + 2 - at,
        {
            let ghost before = items@.map_values(|r: Result<Item, ParseError>| outcome_view(r));
            let ghost first = token_at(src, at);
            proof {
                lemma_token_at_bounds(src, at);
                lemma_token_at_bounds(src, first.next);
            }
            let item = match token.kind {
                TokenKind::TodoKeyword => self.parse_todo(),
                TokenKind::String | TokenKind::MultilineString => {
                    Err(ParseError::ExtraText(token.span))
                },
                TokenKind::Eof => unreached(),
            };
            let ghost entry = outcome_view(item);

            items.push(item);

            proof {
                lemma_offset_bounds(&self.lexer);
                lemma_token_at_bounds(src, self.offset());
            }
            let ghost next_at = self.offset();
            token = self.next_token();
            proof {
                assert(items@.map_values(|r: Result<Item, ParseError>| outcome_view(r))
                    =~= before.push(entry));
                assert(before.push(entry) + parse_items(src, next_at) =~= before + (seq![entry]
                    + parse_items(src, next_at)));
                at = next_at;
            }
        }

        let text = Text { items };
        proof {
            assert(text@ =~= text@ + parse_items(src, at));
            lemma_eof_stays(src, at);
        }
        text
    }

    /// Reads the token after a keyword and makes a task or an error of it.
    fn parse_todo(&mut self) -> (item: Result<Item, ParseError>)
        requires
            old(self).wf(),
        ensures
            final(self).wf(),
            final(self).source() == old(self).source(),
            outcome_view(item) == todo_outcome(
                old(self).source(),
                token_at(old(self).source(), old(self).offset()),
            ),
            final(self).offset() == token_at(old(self).source(), old(self).offset()).next,
    {
        let token = self.next_token();
        match token.kind {
            TokenKind::TodoKeyword => Err(
                ParseError::UnexpectedToken {
                    expected: TokenKind::String,
                    found: TokenKind::TodoKeyword,
                    span: token.span,
                },
            ),
            TokenKind::String => Ok(
                Item::OneLine(TodoItem { message: token.text.to_owned(), span: token.span }),
            ),
            TokenKind::MultilineString => {
                let message = normalize(token.text);

                Ok(Item::Multiline(TodoItem { message, span: token.span }))
            },
            TokenKind::Eof => Err(ParseError::UnexpectedEof(token.span)),
        }
    }
}

/// A lexer between two tokens stands at most one place past the end of its
/// text.
pub proof fn lemma_offset_bounds(lexer: &Lexer)
    requires
        lexer.wf(),
    ensures
        0 <= lexer.offset() <= lexer.source().len() + 1,
{
    lexer.lemma_wf_bounds();
}

impl Text {
    /// Parses `src` from its start, unless it is longer than
    /// [`MAX_SOURCE_LEN`].
    pub fn try_parse(src: &str) -> (text: Option<Text>)
        ensures
            text is Some == (src.spec_bytes().len() <= MAX_SOURCE_LEN),
            text is Some ==> text->0@ == parse_text(src.spec_bytes(), 0),
    {
        match Lexer::try_new(src) {
            Some(lexer) => Some(Parser::new(lexer).parse()),
            None => None,
        }
    }

    /// Parses `src` from its start.
    pub fn parse(src: &str) -> (text: Text)
        requires
            src.spec_bytes().len() <= MAX_SOURCE_LEN,
        ensures
            text@ == parse_text(src.spec_bytes(), 0),
    {
        Parser::new(Lexer::new(src)).parse()
    }
}

/// The number of constructs that the text holds at its top level from
/// `from` on: each keyword with the token after it is one, and so is each
/// text without a keyword.
pub open spec fn construct_count(src: Seq<u8>, from: int) -> nat
    decreases src.len() + 2 - from,
    when 0 <= from
    via construct_count_decreases
{
    let first = token_at(src, from);
    match first.kind {
        TokenKind::Eof => 0,
        TokenKind::TodoKeyword => 1 + construct_count(src, token_at(src, first.next).next),
        _ => 1 + construct_count(src, first.next),
    }
}

#[via_fn]
proof fn construct_count_decreases(src: Seq<u8>, from: int) {
    if from <= src.len() + 1 {
        lemma_token_at_bounds(src, from);
        lemma_token_at_bounds(src, token_at(src, from).next);
    } else {
        lemma_token_past_end(src, from);
    }
}

/// A parsed text has one entry for each construct at the top level of the
/// text, errors included, and the one entry that reports the unexpected end
/// where the text holds no construct at all.
pub proof fn lemma_one_entry_per_construct(src: Seq<u8>, from: int)
    requires
        0 <= from,
    ensures
        parse_items(src, from).len() == construct_count(src, from),
        parse_text(src, from).len() == if construct_count(src, from) == 0 {
            1
        } else {
            construct_count(src, from)
        },
    decreases src.len() + 2 - from,
{
    let first = token_at(src, from);
    if from <= src.len() + 1 {
        lemma_token_at_bounds(src, from);
        lemma_token_at_bounds(src, first.next);
    } else {
        lemma_token_past_end(src, from);
    }
    match first.kind {
        TokenKind::Eof => {},
        TokenKind::TodoKeyword => {
            lemma_one_entry_per_construct(src, token_at(src, first.next).next);
        },
        _ => {
            lemma_one_entry_per_construct(src, first.next);
        },
    }
}

/// The keyword and one space: what stands before the text of a task that is
/// written on one line.
pub open spec fn one_line_prefix() -> Seq<u8> {
    seq![0x74u8, 0x6fu8, 0x64u8, 0x6fu8, 0x20u8]
}

/// Whether `text` can stand after the keyword as the message of a task on
/// one line: it is not empty, holds no line feed, does not start with white
/// space or `{`, and does not start with the keyword as a word of its own.
pub open spec fn is_one_line_message(text: Seq<u8>) -> bool {
    &&& text.len() > 0
    &&& forall|i: int| 0 <= i < text.len() ==> #[trigger] text[i] != NEWLINE
    &&& !is_whitespace_byte(text[0])
    &&& text[0] != OPEN_BRACE
    &&& text.subrange(0, word_end(text, 0)) != keyword_bytes()
}

/// In the keyword, a space and a message on one line, the first token is
/// the keyword.
proof fn lemma_one_line_keyword(text: Seq<u8>)
    requires
        is_one_line_message(text),
    ensures
        token_at(one_line_prefix() + text, 0).kind == TokenKind::TodoKeyword,
        token_at(one_line_prefix() + text, 0).next == 4,
{
    let src = one_line_prefix() + text;
    lemma_run_end_unique(src, 0, Run::Space, 0);
    lemma_run_end_unique(src, 0, Run::Word, 4);
    assert(src.subrange(0, 4) =~= keyword_bytes());
}

/// In the keyword, a space and a message on one line, the second token is
/// the message.
proof fn lemma_one_line_message(text: Seq<u8>)
    requires
        is_one_line_message(text),
    ensures
        token_at(one_line_prefix() + text, 4).kind == TokenKind::String,
        token_at(one_line_prefix() + text, 4).next == 5 + text.len(),
        token_at(one_line_prefix() + text, 4).text(one_line_prefix() + text) == text,
        token_at(one_line_prefix() + text, 4).span == (Span {
            start: position_at(one_line_prefix() + text, 5),
            end: position_at(one_line_prefix() + text, 5 + text.len() as int),
        }),
{
    let prefix = one_line_prefix();
    let src = prefix + text;
    let n = src.len() as int;
    assert(forall|i: int| 0 <= i < text.len() ==> src[5 + i] == text[i]);
    assert(src[5] == text[0]);
    lemma_run_end_unique(src, 4, Run::Space, 5);
    lemma_run_end_after_prefix(prefix, text, 0, Run::Word);
    lemma_run_end(text, 0, Run::Word);
    let w = word_end(text, 0);
    assert(src.subrange(5, 5 + w) =~= text.subrange(0, w));
    assert forall|i: int| 5 <= i < n implies Run::Line.holds(#[trigger] src[i]) by {
        assert(src[i] == text[i - 5]);
    }
    lemma_run_end_unique(src, 5, Run::Line, n);
    let second = token_here(src, 5);
    assert(second.kind == TokenKind::String);
    assert(src.subrange(5, n) =~= text);
}

/// The keyword, a space and a message on one line parse to exactly one
/// task on one line. Its message is the text after the space, and its span
/// covers exactly the bytes of that text: it starts at the first of them and
/// ends one place past the last.
pub proof fn lemma_one_line_todo(text: Seq<u8>)
    requires
        is_one_line_message(text),
        text.len() + 5 <= MAX_SOURCE_LEN,
    ensures
        parse_text(one_line_prefix() + text, 0) == seq![
            Ok::<ItemView, ParseError>(
                ItemView::OneLine(
                    TodoItemView {
                        message: decode_utf8(text),
                        span: Span {
                            start: Position { value: 5, line: 0, col: 5 },
                            end: Position {
                                value: (5 + text.len()) as u32,
                                line: 0,
                                col: (5 + text.len()) as u32,
                            },
                        },
                    },
                ),
            ),
        ],
{
    let src = one_line_prefix() + text;
    let n = src.len() as int;
    lemma_one_line_keyword(text);
    lemma_one_line_message(text);
    assert forall|i: int| 0 <= i < n implies #[trigger] src[i] != NEWLINE by {
        if i >= 5 {
            assert(src[i] == text[i - 5]);
        }
    }
    lemma_position_on_first_line(src, 5);
    lemma_position_on_first_line(src, n);
    let second = token_at(src, 4);
    lemma_token_past_end(src, n);
    assert(parse_items(src, n) =~= Seq::<Outcome>::empty());
    assert(parse_items(src, 0) =~= seq![todo_outcome(src, second)]);
}

} // verus!
