use mynd::buffer::{lines, render_buffer, render_todo};
use mynd::collection::{TodoArrayList, TodoCollection};
use mynd::config::{MyndConfig, SaveFileFormat};
use mynd::identity::{same_text, TodoID};
use mynd::lens::{code_lenses, title_of};
use mynd::parser::Text;
use mynd::reconcile::Engine;
use mynd::record::{Todo, TodoTime};
use mynd::span::{EditorPosition, EditorRange, Position, Span};
use mynd::sync::{apply, upsert};

fn todo(message: &str) -> Todo {
    Todo::created_at(message.to_string(), TodoTime(0))
}

#[test]
fn one_line_and_block_are_rendered() {
    assert_eq!(render_buffer(&vec![]), "");
    assert_eq!(
        render_buffer(&vec![todo("buy milk"), todo("first\nsecond"), todo("")]),
        "todo buy milk\n\ntodo {\n  first\n  second\n}\n\ntodo \n\n"
    );
    let mut text = "# ".to_string();
    render_todo(&mut text, "a\r\nb\n");
    assert_eq!(text, "# todo {\n  a\n  b\n}\n\n");
    let mut text = String::new();
    render_todo(&mut text, "one line\n");
    assert_eq!(text, "todo one line\n\n\n");
}

#[test]
fn lines_agree_with_the_standard_library() {
    for case in ["", "a", "a\n", "\n", "a\n\nb", "a\r\nb\r", "\r\n\r\n", "a\r\r\nb", "x\ny\n"] {
        let chars: Vec<char> = case.chars().collect();
        let found: Vec<String> = lines(&chars).into_iter().map(|l| l.into_iter().collect()).collect();
        let expected: Vec<String> = case.lines().map(|l| l.to_string()).collect();
        assert_eq!(found, expected, "{case:?}");
    }
}

#[test]
fn rendered_messages_parse_back() {
    let todos = vec![todo("buy milk"), todo("first\nsecond"), todo("third")];
    let text = Text::parse(&render_buffer(&todos));
    let mut engine = Engine::new();
    let result = engine.reconcile("doc", &text, &todos);
    assert_eq!(result.upserts, todos);
    assert!(result.diagnostics.is_empty());
}

#[test]
fn lens_for_each_task_of_the_store() {
    let store = vec![
        Todo {
            done: true,
            ..todo("a")
        },
        todo("c"),
    ];
    let text = Text::parse("todo a\ntodo b\noops\ntodo c");
    let lenses = code_lenses(&text, &store);
    assert_eq!(lenses.len(), 2);

    assert_eq!(
        lenses[0].range,
        EditorRange {
            start: EditorPosition {
                line: 0,
                character: 5
            },
            end: EditorPosition {
                line: 0,
                character: 6
            },
        }
    );
    assert_eq!(lenses[0].command, "mark_done");
    assert_eq!(lenses[0].argument, TodoID::hash_message("a").0);
    assert!(lenses[0].title.starts_with("[x], created on: "));
    assert_eq!(
        lenses[0].title,
        title_of(true, &TodoTime(0).to_local_date_string())
    );

    assert_eq!(lenses[1].range.start.line, 3);
    assert_eq!(lenses[1].argument, TodoID::hash_message("c").0);
    assert!(lenses[1].title.starts_with("[ ], created on: "));
}

#[test]
fn title_shows_mark_and_date() {
    assert_eq!(title_of(true, "09/11/2022 18:34"), "[x], created on: 09/11/2022 18:34");
    assert_eq!(title_of(false, ""), "[ ], created on: ");
}

#[test]
fn local_date_has_the_expected_shape() {
    let date = TodoTime(1_662_921_288_000_000_000).to_local_date_string();
    let shape: String = date
        .chars()
        .map(|c| if c.is_ascii_digit() { '9' } else { c })
        .collect();
    assert_eq!(shape, "99/99/9999 99:99");
    assert!(date.contains("/2022 "));
}

#[test]
fn now_is_after_2020() {
    let now = TodoTime::now();
    assert!(now > TodoTime(1_577_836_800_000_000_000));
    assert!(TodoTime::default() >= now);
}

#[test]
fn span_to_editor_range() {
    let start = Position {
        value: 29,
        line: 2,
        col: 9,
    };
    let end = Position {
        value: 139,
        line: 6,
        col: 4,
    };
    assert_eq!(start.spanning_to(end), Span { start, end });
    assert_eq!(
        start.into_lsp_pos(),
        EditorPosition {
            line: 2,
            character: 9
        }
    );
    assert_eq!(
        Span { start, end }.into_lsp_range(),
        EditorRange {
            start: EditorPosition {
                line: 2,
                character: 9
            },
            end: EditorPosition {
                line: 6,
                character: 4
            },
        }
    );
}

#[test]
fn apply_carries_out_upserts_then_retractions() {
    let mut engine = Engine::new();
    let mut list = TodoArrayList::new();

    let first = engine.reconcile("doc", &Text::parse("todo a\ntodo b"), &list.get_all());
    apply(&mut list, &first);
    assert_eq!(list.get_all(), first.upserts);

    let second = engine.reconcile("doc", &Text::parse("todo b\ntodo c"), &list.get_all());
    apply(&mut list, &second);
    let messages: Vec<String> = list.get_all().into_iter().map(|t| t.message).collect();
    assert_eq!(messages, vec!["b", "c"]);

    let third = engine.reconcile("doc", &Text::parse("todo b\ntodo c"), &list.get_all());
    assert_eq!(third.upserts, second.upserts.iter().map(|u| list.get(&u.id).unwrap()).collect::<Vec<_>>());
    assert!(third.retractions.is_empty());
    let before = list.get_all();
    apply(&mut list, &third);
    assert_eq!(list.get_all(), before);
}

#[test]
fn upsert_replaces_the_record_of_the_same_identity() {
    let mut list = TodoArrayList::from(vec![todo("a"), todo("b")]);
    let changed = Todo {
        done: true,
        ..todo("a")
    };
    upsert(&mut list, changed.clone());
    assert_eq!(list.get_all(), vec![todo("b"), changed]);
    upsert(&mut list, todo("c"));
    assert_eq!(list.len(), 3);
}

#[test]
fn configuration_defaults_to_bytes() {
    assert_eq!(
        MyndConfig::default(),
        MyndConfig {
            save_file_format: SaveFileFormat::Binary
        }
    );
    assert_eq!(SaveFileFormat::from_extension("json"), Some(SaveFileFormat::Json));
    assert_eq!(SaveFileFormat::from_extension("bin"), Some(SaveFileFormat::Binary));
    assert_eq!(SaveFileFormat::from_extension("td"), None);
    assert_eq!(SaveFileFormat::from_extension(""), None);
    assert_eq!(SaveFileFormat::Json.file_name(), "todo.json");
    assert_eq!(SaveFileFormat::Binary.file_name(), "todo.bin");
}

#[test]
fn same_text_compares_by_content() {
    assert!(same_text("", ""));
    assert!(same_text("caf\u{e9}", "caf\u{e9}"));
    assert!(!same_text("a", "b"));
    assert!(!same_text("a", "ab"));
    assert!(!same_text("cafe\u{301}", "caf\u{e9}"));
}

#[test]
fn text_that_fits_is_parsed() {
    assert_eq!(Text::try_parse("todo a"), Some(Text::parse("todo a")));
}

#[test]
fn clock_without_a_number_is_the_last_moment() {
    assert_eq!(TodoTime::from_clock(Some(5)), TodoTime(5));
    assert_eq!(TodoTime::from_clock(Some(-7)), TodoTime(-7));
    assert_eq!(TodoTime::from_clock(None), TodoTime(i64::MAX));
}
