use mynd::lexer::{Lexer, Token, TokenKind};
use mynd::normalize::normalize;
use mynd::parser::{Item, ParseError, Parser, Text, TodoItem};
use mynd::span::{Position, Span};

fn pos(value: u32, line: u32, col: u32) -> Position {
    Position { value, line, col }
}

fn span(start: Position, end: Position) -> Span {
    Span { start, end }
}

fn one_line(message: &str, span: Span) -> Result<Item, ParseError> {
    Ok(Item::OneLine(TodoItem {
        message: message.to_string(),
        span,
    }))
}

fn multiline(message: &str, span: Span) -> Result<Item, ParseError> {
    Ok(Item::Multiline(TodoItem {
        message: message.to_string(),
        span,
    }))
}

fn tokens_of(src: &str) -> Vec<Token<'_>> {
    let mut lexer = Lexer::new(src);
    let mut tokens = vec![];
    loop {
        let token = lexer.next_token();
        if token.kind == TokenKind::Eof {
            return tokens;
        }
        tokens.push(token);
    }
}

#[test]
fn parses_todos_singles() {
    let src = "todo run this test\ntodo run this as well\ntodo and this";

    let tokens = tokens_of(src);

    assert_eq!(
        tokens,
        vec![
            Token::new(TokenKind::TodoKeyword, "todo", span(pos(0, 0, 0), pos(4, 0, 4))),
            Token::new(TokenKind::String, "run this test", span(pos(5, 0, 5), pos(18, 0, 18))),
            Token::new(TokenKind::TodoKeyword, "todo", span(pos(19, 1, 0), pos(23, 1, 4))),
            Token::new(
                TokenKind::String,
                "run this as well",
                span(pos(24, 1, 5), pos(40, 1, 21))
            ),
            Token::new(TokenKind::TodoKeyword, "todo", span(pos(41, 2, 0), pos(45, 2, 4))),
            Token::new(TokenKind::String, "and this", span(pos(46, 2, 5), pos(54, 2, 13))),
        ]
    );

    let text = Text::parse(src);

    assert_eq!(
        text,
        Text {
            items: vec![
                one_line("run this test", span(pos(5, 0, 5), pos(18, 0, 18))),
                one_line("run this as well", span(pos(24, 1, 5), pos(40, 1, 21))),
                one_line("and this", span(pos(46, 2, 5), pos(54, 2, 13))),
            ]
        }
    );
}

#[test]
fn parses_todos_mix() {
    let src = r#"todo run this test

    todo {
        run this test with a single line toodo
        as well as this multiline todo
        blah blah
    }"#;

    let text = Text::parse(src);

    assert_eq!(
        text,
        Text {
            items: vec![
                one_line("run this test", span(pos(5, 0, 5), pos(18, 0, 18))),
                multiline(
                    "run this test with a single line toodo\nas well as this multiline todo\nblah blah",
                    span(pos(29, 2, 9), pos(140, 6, 5))
                ),
            ]
        }
    );
}

#[test]
fn parses_todos_errors() {
    let src = r#"run this test
    todo todo
    todo"#;

    let text = Text::parse(src);

    assert_eq!(
        text,
        Text {
            items: vec![
                Err(ParseError::ExtraText(span(pos(0, 0, 0), pos(13, 0, 13)))),
                Err(ParseError::UnexpectedToken {
                    expected: TokenKind::String,
                    found: TokenKind::TodoKeyword,
                    span: span(pos(23, 1, 9), pos(27, 1, 13)),
                }),
                Err(ParseError::UnexpectedEof(span(pos(35, 2, 7), pos(35, 2, 7)))),
            ]
        }
    );
}

#[test]
fn empty_text_is_one_unexpected_end() {
    assert_eq!(
        Text::parse(""),
        Text {
            items: vec![Err(ParseError::UnexpectedEof(Span::default()))]
        }
    );
    assert_eq!(
        Text::parse("  \n\t"),
        Text {
            items: vec![Err(ParseError::UnexpectedEof(span(pos(3, 1, 0), pos(3, 1, 0))))]
        }
    );
}

#[test]
fn one_line_todo_keeps_its_text_and_span() {
    for message in ["a", "buy milk", "x  ", "todos", "caf\u{e9}", "}{", "1 todo"] {
        let src = format!("todo {message}");
        let end = 5 + message.len() as u32;
        assert_eq!(
            Text::parse(&src),
            Text {
                items: vec![one_line(message, span(pos(5, 0, 5), pos(end, 0, end)))]
            }
        );
    }
}

#[test]
fn every_construct_gives_one_entry() {
    let cases: [(&str, usize); 8] = [
        ("", 1),
        ("garbage", 1),
        ("todo", 1),
        ("todo {", 1),
        ("todo { never closed", 1),
        ("\u{0}\u{1}\u{7f} \u{fffd}\n}}}\n{{{", 3),
        ("todo a\nstray\ntodo todo\ntodo {b}\ntodo", 5),
        ("todo todo todo", 2),
    ];
    for (src, entries) in cases {
        assert_eq!(Text::parse(src).items.len(), entries, "{src:?}");
    }
}

#[test]
fn unterminated_block_is_an_item() {
    assert_eq!(
        Text::parse("todo {\n  a\n  b"),
        Text {
            items: vec![multiline("a\nb", span(pos(5, 0, 5), pos(14, 2, 3)))]
        }
    );
    assert_eq!(
        Text::parse("todo {"),
        Text {
            items: vec![multiline("", span(pos(5, 0, 5), pos(6, 0, 6)))]
        }
    );
}

#[test]
fn parser_goes_on_from_where_the_lexer_stands() {
    let mut lexer = Lexer::new("todo a\ntodo b");
    lexer.next_token();
    let text = Parser::new(lexer).parse();
    assert_eq!(
        text,
        Text {
            items: vec![
                Err(ParseError::ExtraText(span(pos(5, 0, 5), pos(6, 0, 6)))),
                one_line("b", span(pos(12, 1, 5), pos(13, 1, 6))),
            ]
        }
    );
}

#[test]
fn error_messages() {
    assert_eq!(
        ParseError::ExtraText(Span::default()).message(),
        "dangling text; without todo"
    );
    assert_eq!(
        ParseError::UnexpectedEof(Span::default()).message(),
        "reached an unexpected end of file"
    );
    assert_eq!(
        ParseError::UnexpectedToken {
            expected: TokenKind::String,
            found: TokenKind::TodoKeyword,
            span: Span::default()
        }
        .message(),
        "expected a text, but found a todo keyword"
    );
    assert_eq!(
        ParseError::UnexpectedToken {
            expected: TokenKind::MultilineString,
            found: TokenKind::Eof,
            span: Span::default()
        }
        .message(),
        "expected a text block, but found a EOF"
    );
    let at = span(pos(3, 1, 2), pos(9, 2, 0));
    assert_eq!(ParseError::ExtraText(at).span(), at);
}

#[test]
fn normalize_trims_and_drops_blank_lines() {
    assert_eq!(normalize("\n    a\n\n   \n  b  \n\tc\n"), "a\nb  \nc");
    assert_eq!(normalize(""), "");
    assert_eq!(normalize(" \n \t\n"), "");
    assert_eq!(normalize("one"), "one");
    assert_eq!(normalize("  a\r\n  b\r\n"), "a\nb");
    assert_eq!(normalize("a\rb"), "a\rb");
    assert_eq!(normalize("\u{a0}a\n\u{3000}\u{2003}b\u{85}"), "a\nb");
}

#[test]
fn normalize_agrees_with_the_standard_library() {
    let cases = [
        "\n    run this test with a single line toodo\n    as well as this multiline todo\n    blah blah\n",
        "a\r\r\nb",
        "x\n\r\ny",
        "  \r\n",
        "\r",
        "a \n b \n\n c ",
        "\u{2028}a\u{2029}\nb\u{205f}",
        "tab\there\n\tindented",
    ];
    for case in cases {
        let expected = case
            .trim()
            .lines()
            .map(|line| line.trim_start())
            .filter(|line| !line.is_empty())
            .collect::<Vec<_>>()
            .join("\n");
        assert_eq!(normalize(case), expected, "{case:?}");
    }
}

#[test]
fn normalize_is_idempotent() {
    for case in ["\n  a\n\n  b \n c\n", "x", "", "  a\r\n  b\r\n c", "a\n\n\nb"] {
        let once = normalize(case);
        assert_eq!(normalize(&once), once);
        for line in once.lines() {
            assert!(!line.is_empty());
            assert!(!line.starts_with(char::is_whitespace));
        }
    }
    // A line that ends with two carriage returns keeps one of them, which a
    // second pass takes for part of the line end.
    assert_eq!(normalize("a\r\r\nb"), "a\r\nb");
    assert_eq!(normalize("a\r\nb"), "a\nb");
}

#[test]
fn white_space_is_what_the_standard_library_takes_for_it() {
    for c in '\0'..=char::MAX {
        assert_eq!(mynd::normalize::is_whitespace_char(c), c.is_whitespace(), "{c:?}");
    }
}
