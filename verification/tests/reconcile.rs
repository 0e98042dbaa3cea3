use mynd::identity::TodoID;
use mynd::parser::Text;
use mynd::reconcile::{Diagnostic, Engine};
use mynd::record::{Todo, TodoTime};
use mynd::span::{EditorPosition, EditorRange};

const HASH_A: &str = "ca978112ca1bbdcafac231b39a23dc4da786eff8147c4e72b9807785afee48bb";
const HASH_B: &str = "3e23e8160039594a33894f6564e1b1348bbd7a0088d42c4acb73eeaed59c009d";
const HASH_HELLO: &str = "2cf24dba5fb0a30e26e83b2ac5b9e29e1b161e5c1fa7425e73043362938b9824";

fn id(hex: &str) -> TodoID {
    TodoID(hex.to_string())
}

fn apply(store: &mut Vec<Todo>, upserts: &[Todo], retractions: &[TodoID]) {
    for record in upserts {
        store.retain(|r| r.id != record.id);
        store.push(record.clone());
    }
    for gone in retractions {
        store.retain(|r| r.id != *gone);
    }
}

#[test]
fn hash_is_the_sha256_of_the_message() {
    assert_eq!(TodoID::hash_message("hello"), id(HASH_HELLO));
    assert_eq!(TodoID::hash_message("a"), id(HASH_A));
    assert_eq!(TodoID::hash_message("b"), id(HASH_B));
    assert_eq!(
        TodoID::hash_message(""),
        id("e3b0c44298fc1c149afbf4c8996fb92427ae41e4649b934ca495991b7852b855")
    );
}

#[test]
fn hash_is_pure_and_tells_messages_apart() {
    let corpus = [
        "", "a", "b", "A", "a ", " a", "ab", "ba", "a\nb", "a\n b", "buy milk", "buy milk.",
        "caf\u{e9}", "cafe\u{301}", "todo", "todo a",
    ];
    for (i, first) in corpus.iter().enumerate() {
        assert_eq!(TodoID::hash_message(first), TodoID::hash_message(first));
        assert_ne!(TodoID::hash_message(first).0, *first);
        for second in &corpus[i + 1..] {
            assert_ne!(TodoID::hash_message(first), TodoID::hash_message(second));
        }
    }
}

#[test]
fn new_todo_is_identified_and_not_done() {
    let todo = Todo::new("a".to_string());
    assert_eq!(todo.id, id(HASH_A));
    assert_eq!(todo.message, "a");
    assert!(!todo.done);

    let at = TodoTime(1_662_921_288_000_000_000);
    let todo = Todo::created_at("b".to_string(), at);
    assert_eq!(
        todo,
        Todo {
            id: id(HASH_B),
            message: "b".to_string(),
            created_at: at,
            done: false
        }
    );
    assert_eq!(todo.clone(), todo);
}

#[test]
fn duplicate_collapses_to_one_upsert() {
    let text = Text::parse("todo a\ntodo b\ntodo a");
    assert_eq!(text.items.len(), 3);

    let mut engine = Engine::new();
    let result = engine.reconcile("file:///tmp/x.td", &text, &vec![]);

    let ids: Vec<TodoID> = result.upserts.iter().map(|t| t.id.clone()).collect();
    assert_eq!(ids, vec![id(HASH_A), id(HASH_B)]);
    let messages: Vec<&str> = result.upserts.iter().map(|t| t.message.as_str()).collect();
    assert_eq!(messages, vec!["a", "b"]);
    assert!(result.upserts.iter().all(|t| !t.done));
    assert!(result.retractions.is_empty());
    assert!(result.diagnostics.is_empty());
}

#[test]
fn second_reconciliation_changes_nothing() {
    let text = Text::parse("todo a\ntodo {\n  b\n  c\n}\nstray\ntodo a");
    let mut engine = Engine::new();
    let mut store = vec![Todo {
        id: id(HASH_A),
        message: "a".to_string(),
        created_at: TodoTime(7),
        done: true,
    }];

    let first = engine.reconcile("doc", &text, &store);
    assert_eq!(first.upserts.len(), 2);
    assert_eq!(first.upserts[0], store[0]);
    assert_eq!(first.upserts[1].message, "b\nc");
    assert!(first.retractions.is_empty());
    apply(&mut store, &first.upserts, &first.retractions);

    let second = engine.reconcile("doc", &text, &store);
    assert_eq!(second.upserts, first.upserts);
    assert!(second.retractions.is_empty());
    assert_eq!(second.diagnostics, first.diagnostics);
}

#[test]
fn deleted_item_is_retracted() {
    let mut engine = Engine::new();
    let mut store = vec![];

    let first = engine.reconcile("doc", &Text::parse("todo a\ntodo b"), &store);
    apply(&mut store, &first.upserts, &first.retractions);
    assert_eq!(store.len(), 2);

    let second = engine.reconcile("doc", &Text::parse("todo a"), &store);
    assert_eq!(second.retractions, vec![id(HASH_B)]);
    assert_eq!(second.upserts, vec![store[0].clone()]);
    apply(&mut store, &second.upserts, &second.retractions);
    assert_eq!(store.len(), 1);
    assert_eq!(store[0].message, "a");
}

#[test]
fn empty_buffer_retracts_all_that_was_tracked() {
    let mut engine = Engine::new();
    engine.reconcile("doc", &Text::parse("todo a\ntodo b"), &vec![]);
    let result = engine.reconcile("doc", &Text::parse(""), &vec![]);
    assert!(result.upserts.is_empty());
    assert_eq!(result.retractions, vec![id(HASH_A), id(HASH_B)]);
    assert_eq!(result.diagnostics.len(), 1);

    let result = engine.reconcile("doc", &Text::parse(""), &vec![]);
    assert!(result.retractions.is_empty());
}

#[test]
fn edited_message_is_a_new_task() {
    let mut engine = Engine::new();
    engine.reconcile("doc", &Text::parse("todo a"), &vec![]);
    let result = engine.reconcile("doc", &Text::parse("todo b"), &vec![]);
    assert_eq!(result.upserts.len(), 1);
    assert_eq!(result.upserts[0].id, id(HASH_B));
    assert_eq!(result.retractions, vec![id(HASH_A)]);
}

#[test]
fn documents_are_tracked_apart() {
    let mut engine = Engine::new();
    engine.reconcile("one", &Text::parse("todo a"), &vec![]);
    engine.reconcile("two", &Text::parse("todo b"), &vec![]);

    let result = engine.reconcile("two", &Text::parse("todo a"), &vec![]);
    assert_eq!(result.retractions, vec![id(HASH_B)]);

    let result = engine.reconcile("one", &Text::parse("todo b"), &vec![]);
    assert_eq!(result.retractions, vec![id(HASH_A)]);
}

#[test]
fn closed_document_is_unknown_again() {
    let mut engine = Engine::new();
    engine.reconcile("doc", &Text::parse("todo a"), &vec![]);
    engine.reconcile("other", &Text::parse("todo a"), &vec![]);
    engine.close("doc");
    let result = engine.reconcile("doc", &Text::parse("todo b"), &vec![]);
    assert!(result.retractions.is_empty());
    let result = engine.reconcile("other", &Text::parse("todo b"), &vec![]);
    assert_eq!(result.retractions, vec![id(HASH_A)]);
}

#[test]
fn record_of_the_store_is_reused_as_it_is() {
    let kept = Todo {
        id: id(HASH_A),
        message: "a".to_string(),
        created_at: TodoTime(42),
        done: true,
    };
    let older = Todo {
        id: id(HASH_A),
        message: "a".to_string(),
        created_at: TodoTime(1),
        done: false,
    };
    let store = vec![older, kept.clone()];
    let mut engine = Engine::new();
    let result = engine.reconcile("doc", &Text::parse("todo a"), &store);
    assert_eq!(result.upserts, vec![kept]);
}

#[test]
fn errors_become_diagnostics() {
    let text = Text::parse("run this test\n    todo todo\n    todo");
    let mut engine = Engine::new();
    let result = engine.reconcile("doc", &text, &vec![]);
    assert!(result.upserts.is_empty());
    let range = |sl: u32, sc: u32, el: u32, ec: u32| EditorRange {
        start: EditorPosition {
            line: sl,
            character: sc,
        },
        end: EditorPosition {
            line: el,
            character: ec,
        },
    };
    assert_eq!(
        result.diagnostics,
        vec![
            Diagnostic {
                range: range(0, 0, 0, 13),
                message: "dangling text; without todo".to_string()
            },
            Diagnostic {
                range: range(1, 9, 1, 13),
                message: "expected a text, but found a todo keyword".to_string()
            },
            Diagnostic {
                range: range(2, 7, 2, 7),
                message: "reached an unexpected end of file".to_string()
            },
        ]
    );
}

#[test]
fn valid_items_beside_errors_are_still_reconciled() {
    let text = Text::parse("todo a\noops\ntodo b");
    let mut engine = Engine::new();
    let result = engine.reconcile("doc", &text, &vec![]);
    assert_eq!(result.upserts.len(), 2);
    assert_eq!(result.diagnostics.len(), 1);
}

#[test]
fn identity_from_text() {
    assert_eq!(TodoID::from("abc"), TodoID("abc".to_string()));
    assert_eq!(TodoID::from("abc".to_string()), TodoID::from("abc"));
    assert_eq!(TodoID::from(""), TodoID(String::new()));
}

#[test]
fn nothing_is_retracted_twice() {
    let mut engine = Engine::new();
    engine.reconcile("doc", &Text::parse("todo a\ntodo b\ntodo a\ntodo b"), &vec![]);
    let result = engine.reconcile("doc", &Text::parse("stray"), &vec![]);
    assert_eq!(result.retractions, vec![id(HASH_A), id(HASH_B)]);
}
