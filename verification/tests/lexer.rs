use mynd::lexer::{Lexer, Token, TokenKind};
use mynd::span::{Position, Span};

fn pos(value: u32, line: u32, col: u32) -> Position {
    Position { value, line, col }
}

fn span(start: Position, end: Position) -> Span {
    Span { start, end }
}

fn tokens_of(src: &str) -> Vec<Token<'_>> {
    let mut lexer = Lexer::new(src);
    let mut tokens = vec![];
    loop {
        let token = lexer.next_token();
        if token.kind == TokenKind::Eof {
            return tokens;
        }
        tokens.push(token);
    }
}

#[test]
fn lexes_single_line_todo() {
    let src = "todo run this test";

    let mut lexer = Lexer::new(src);

    assert_eq!(
        lexer.next_token(),
        Token::new(
            TokenKind::TodoKeyword,
            "todo",
            Span {
                start: Position::default(),
                end: Position {
                    value: 4,
                    line: 0,
                    col: 4
                }
            }
        )
    );
    assert_eq!(
        lexer.next_token(),
        Token::new(
            TokenKind::String,
            "run this test",
            Span {
                start: Position {
                    value: 5,
                    line: 0,
                    col: 5
                },
                end: Position {
                    value: 18,
                    line: 0,
                    col: 18
                }
            }
        )
    );

    assert_eq!(
        lexer.next_token(),
        Token::new(
            TokenKind::Eof,
            "",
            Span {
                start: Position {
                    value: 17,
                    line: 0,
                    col: 17
                },
                end: Position {
                    value: 17,
                    line: 0,
                    col: 17
                }
            }
        )
    );
}

#[test]
fn lexes_multi_line_todo() {
    let src = r#"
todo run this test
todo {
    run this test with a single line toodo
    as well as this multiline todo
    blah blah
}"#;

    let mut lexer = Lexer::new(src);

    assert_eq!(
        lexer.next_token(),
        Token::new(
            TokenKind::TodoKeyword,
            "todo",
            Span {
                start: Position {
                    line: 1,
                    value: 1,
                    col: 0
                },
                end: Position {
                    line: 1,
                    value: 5,
                    col: 4
                }
            }
        )
    );

    assert_eq!(
        lexer.next_token(),
        Token::new(
            TokenKind::String,
            "run this test",
            Span {
                start: Position {
                    value: 6,
                    line: 1,
                    col: 5
                },
                end: Position {
                    value: 19,
                    line: 1,
                    col: 18
                }
            }
        )
    );

    assert_eq!(
        lexer.next_token(),
        Token::new(
            TokenKind::TodoKeyword,
            "todo",
            Span {
                start: Position {
                    line: 2,
                    value: 20,
                    col: 0
                },
                end: Position {
                    line: 2,
                    value: 24,
                    col: 4
                }
            }
        )
    );

    assert_eq!(
        lexer.next_token(),
        Token::new(
            TokenKind::MultilineString,
            r#"
    run this test with a single line toodo
    as well as this multiline todo
    blah blah
"#,
            Span {
                start: Position {
                    line: 2,
                    value: 25,
                    col: 5
                },
                end: Position {
                    line: 6,
                    value: 120,
                    col: 1
                }
            }
        )
    );
}

#[test]
fn lexes_mix() {
    let tokens = tokens_of(
        r#"
todo testing on this

todo {
    testing multiple
    lines of text
}

todo run this test

todo {
    run this test with a single line toodo
    as well as this multiline todo
    blah blah
}

todo todo
todo"#,
    );

    let keyword = |start: Position, end: Position| {
        Token::new(TokenKind::TodoKeyword, "todo", span(start, end))
    };
    assert_eq!(
        tokens,
        vec![
            keyword(pos(1, 1, 0), pos(5, 1, 4)),
            Token::new(
                TokenKind::String,
                "testing on this",
                span(pos(6, 1, 5), pos(21, 1, 20))
            ),
            keyword(pos(23, 3, 0), pos(27, 3, 4)),
            Token::new(
                TokenKind::MultilineString,
                "\n    testing multiple\n    lines of text\n",
                span(pos(28, 3, 5), pos(70, 6, 1))
            ),
            keyword(pos(72, 8, 0), pos(76, 8, 4)),
            Token::new(
                TokenKind::String,
                "run this test",
                span(pos(77, 8, 5), pos(90, 8, 18))
            ),
            keyword(pos(92, 10, 0), pos(96, 10, 4)),
            Token::new(
                TokenKind::MultilineString,
                "\n    run this test with a single line toodo\n    as well as this multiline todo\n    blah blah\n",
                span(pos(97, 10, 5), pos(192, 14, 1))
            ),
            keyword(pos(194, 16, 0), pos(198, 16, 4)),
            keyword(pos(199, 16, 5), pos(203, 16, 9)),
            keyword(pos(204, 17, 0), pos(208, 17, 4)),
        ]
    );
}

#[test]
fn lex_eof() {
    let src = "todo";

    let mut lexer = Lexer::new(src);

    assert_eq!(
        lexer.next_token(),
        Token::new(
            TokenKind::TodoKeyword,
            "todo",
            Span {
                start: Position::default(),
                end: Position {
                    value: 4,
                    line: 0,
                    col: 4
                }
            }
        )
    );

    assert_eq!(
        lexer.next_token(),
        Token::new(
            TokenKind::Eof,
            "",
            Span {
                start: Position {
                    value: 3,
                    line: 0,
                    col: 3
                },

                end: Position {
                    value: 3,
                    line: 0,
                    col: 3
                }
            }
        )
    );
}

#[test]
fn eof_is_returned_forever() {
    let mut lexer = Lexer::new("todo a\n");
    assert_eq!(lexer.next_token().kind, TokenKind::TodoKeyword);
    assert_eq!(lexer.next_token().kind, TokenKind::String);
    let first = lexer.next_token();
    assert_eq!(first.kind, TokenKind::Eof);
    assert_eq!(first.span, span(pos(6, 0, 6), pos(6, 0, 6)));
    for _ in 0..3 {
        assert_eq!(lexer.next_token(), first);
    }
}

#[test]
fn empty_text_is_eof_at_origin() {
    let mut lexer = Lexer::new("");
    assert_eq!(
        lexer.next_token(),
        Token::new(TokenKind::Eof, "", Span::default())
    );
    let mut lexer = Lexer::new(" \t\r\n ");
    assert_eq!(
        lexer.next_token(),
        Token::new(TokenKind::Eof, "", span(pos(4, 1, 0), pos(4, 1, 0)))
    );
}

#[test]
fn block_ends_at_first_closing_brace() {
    assert_eq!(
        tokens_of("{a}b}"),
        vec![
            Token::new(TokenKind::MultilineString, "a", span(pos(0, 0, 0), pos(3, 0, 3))),
            Token::new(TokenKind::String, "b}", span(pos(3, 0, 3), pos(5, 0, 5))),
        ]
    );
    assert_eq!(
        tokens_of("{}x"),
        vec![
            Token::new(TokenKind::MultilineString, "", span(pos(0, 0, 0), pos(2, 0, 2))),
            Token::new(TokenKind::String, "x", span(pos(2, 0, 2), pos(3, 0, 3))),
        ]
    );
}

#[test]
fn unterminated_block_runs_to_the_end() {
    assert_eq!(
        tokens_of("{ab"),
        vec![Token::new(
            TokenKind::MultilineString,
            "ab",
            span(pos(0, 0, 0), pos(3, 0, 3))
        )]
    );
    assert_eq!(
        tokens_of("{"),
        vec![Token::new(
            TokenKind::MultilineString,
            "",
            span(pos(0, 0, 0), pos(1, 0, 1))
        )]
    );
    let mut lexer = Lexer::new("{");
    lexer.next_token();
    assert_eq!(
        lexer.next_token(),
        Token::new(TokenKind::Eof, "", span(pos(1, 0, 1), pos(1, 0, 1)))
    );
}

#[test]
fn words_other_than_the_keyword_are_text() {
    assert_eq!(
        tokens_of("todos buy milk\ntodo_ x\nTodo y"),
        vec![
            Token::new(TokenKind::String, "todos buy milk", span(pos(0, 0, 0), pos(14, 0, 14))),
            Token::new(TokenKind::String, "todo_ x", span(pos(15, 1, 0), pos(22, 1, 7))),
            Token::new(TokenKind::String, "Todo y", span(pos(23, 2, 0), pos(29, 2, 6))),
        ]
    );
    assert_eq!(
        tokens_of("todo1"),
        vec![
            Token::new(TokenKind::TodoKeyword, "todo", span(pos(0, 0, 0), pos(4, 0, 4))),
            Token::new(TokenKind::String, "1", span(pos(4, 0, 4), pos(5, 0, 5))),
        ]
    );
}

#[test]
fn text_beyond_ascii_is_cut_at_characters() {
    assert_eq!(
        tokens_of("todo caf\u{e9} \u{2603}\n{\u{e9}}"),
        vec![
            Token::new(TokenKind::TodoKeyword, "todo", span(pos(0, 0, 0), pos(4, 0, 4))),
            Token::new(TokenKind::String, "caf\u{e9} \u{2603}", span(pos(5, 0, 5), pos(14, 0, 14))),
            Token::new(TokenKind::MultilineString, "\u{e9}", span(pos(15, 1, 0), pos(19, 1, 4))),
        ]
    );
    assert_eq!(
        tokens_of("\u{e9}t\u{e9}"),
        vec![Token::new(TokenKind::String, "\u{e9}t\u{e9}", span(pos(0, 0, 0), pos(5, 0, 5)))]
    );
}

#[test]
fn byte_classes_are_those_of_the_standard_library() {
    for b in 0..=u8::MAX {
        assert_eq!(mynd::lexer::is_ascii_whitespace(b), b.is_ascii_whitespace());
        assert_eq!(mynd::lexer::is_ascii_alphabetic(b), b.is_ascii_alphabetic());
    }
}

#[test]
fn spans_count_bytes_and_lines() {
    assert_eq!(
        tokens_of("\n\n  todo \u{e9}\n\ttodo x"),
        vec![
            Token::new(TokenKind::TodoKeyword, "todo", span(pos(4, 2, 2), pos(8, 2, 6))),
            Token::new(TokenKind::String, "\u{e9}", span(pos(9, 2, 7), pos(11, 2, 9))),
            Token::new(TokenKind::TodoKeyword, "todo", span(pos(13, 3, 1), pos(17, 3, 5))),
            Token::new(TokenKind::String, "x", span(pos(18, 3, 6), pos(19, 3, 7))),
        ]
    );
}

#[test]
fn text_that_fits_is_lexed() {
    let mut lexer = Lexer::try_new("todo").unwrap();
    assert_eq!(lexer.next_token().kind, TokenKind::TodoKeyword);
}
