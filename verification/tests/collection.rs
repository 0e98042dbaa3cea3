use mynd::collection::{select_todos, CollectionError, TodoArrayList, TodoCollection};
use mynd::identity::TodoID;
use mynd::record::{Todo, TodoTime};

fn messages(todos: &TodoArrayList) -> Vec<String> {
    todos.get_all().into_iter().map(|t| t.message).collect()
}

fn list_of(texts: &[&str]) -> TodoArrayList {
    let mut todos = TodoArrayList::new();
    for text in texts {
        todos.add_message(text).unwrap();
    }
    todos
}

fn id_of(text: &str) -> String {
    TodoID::hash_message(text).0
}

#[test]
fn move_below_from_top_to_bottom() {
    let mut todos = TodoArrayList::new();

    todos.add_message("1").unwrap();
    todos.add_message("2").unwrap();
    let target = todos.add_message("3").unwrap().id.0;
    todos.add_message("4").unwrap();
    let id = todos.add_message("5").unwrap().id.0;
    // now, todos = [1, 2, 3, 4, 5]

    todos.move_below(&id, &target).unwrap();

    let messages = todos
        .get_all()
        .into_iter()
        .map(|t| t.message)
        .collect::<Vec<_>>();

    assert_eq!(
        messages,
        vec![
            "1".to_string(),
            "2".to_string(),
            "3".to_string(),
            "5".to_string(),
            "4".to_string(),
        ]
    )
}

#[test]
fn move_below_from_bottom_to_top() {
    let mut todos = TodoArrayList::new();

    todos.add_message("1").unwrap();
    let id = todos.add_message("2").unwrap().id.0;
    todos.add_message("3").unwrap();
    todos.add_message("4").unwrap();
    let target = todos.add_message("5").unwrap().id.0;
    // now, todos = [1, 2, 3, 4, 5]

    todos.move_below(&id, &target).unwrap();

    let messages = todos
        .get_all()
        .into_iter()
        .map(|t| t.message)
        .collect::<Vec<_>>();

    assert_eq!(
        messages,
        vec![
            "1".to_string(),
            "3".to_string(),
            "4".to_string(),
            "5".to_string(),
            "2".to_string(),
        ]
    )
}

#[test]
fn move_below_to_bottom() {
    let mut todos = TodoArrayList::new();

    let target = todos.add_message("1").unwrap().id.0;
    todos.add_message("2").unwrap();
    todos.add_message("3").unwrap();
    todos.add_message("4").unwrap();
    let id = todos.add_message("5").unwrap().id.0;
    // now, todos = [1, 2, 3, 4, 5]

    todos.move_below(&id, &target).unwrap();

    let messages = todos
        .get_all()
        .into_iter()
        .map(|t| t.message)
        .collect::<Vec<_>>();

    assert_eq!(
        messages,
        vec![
            "1".to_string(),
            "5".to_string(),
            "2".to_string(),
            "3".to_string(),
            "4".to_string(),
        ]
    )
}

#[test]
fn move_below_refusals() {
    let mut todos = list_of(&["1", "2", "3"]);
    assert_eq!(
        todos.move_below(&id_of("1"), &id_of("1")),
        Err(CollectionError::BelowItself)
    );
    assert_eq!(
        todos.move_below(&id_of("2"), &id_of("1")),
        Err(CollectionError::AlreadyBelow)
    );
    assert_eq!(
        todos.move_below(&id_of("9"), &id_of("1")),
        Err(CollectionError::NotFound)
    );
    assert_eq!(
        todos.move_below(&id_of("1"), &id_of("9")),
        Err(CollectionError::NotFound)
    );
    assert_eq!(messages(&todos), vec!["1", "2", "3"]);
}

#[test]
fn add_keeps_one_task_for_each_message() {
    let mut todos = TodoArrayList::new();
    let first = todos.add_message("a").unwrap();
    let again = todos.add_message("a").unwrap();
    assert_eq!(first, again);
    assert_eq!(todos.len(), 1);
    assert!(todos.contains(&first.id));
    assert!(!todos.contains(&TodoID::hash_message("b")));
    assert_eq!(todos.get(&first.id), Ok(first.clone()));
    assert_eq!(
        todos.get(&TodoID::hash_message("b")),
        Err(CollectionError::NotFound)
    );
    assert_eq!(todos.add("b").unwrap().message, "b");
    assert_eq!(todos.add("b"), todos.get(&TodoID::hash_message("b")));
    assert_eq!(messages(&todos), vec!["a", "b"]);
}

#[test]
fn empty_message_is_refused() {
    let mut todos = TodoArrayList::new();
    assert_eq!(todos.add_message(""), Err(CollectionError::EmptyMessage));
    assert_eq!(todos.len(), 0);
    assert_eq!(
        CollectionError::EmptyMessage.message(),
        "no sense in an empty todo message"
    );
    assert_eq!(
        CollectionError::NotFound.message(),
        "didn't find a todo by the id provided"
    );
    assert_eq!(
        CollectionError::BelowItself.message(),
        "[INFO] noop: won't move a todo item below itself"
    );
    assert_eq!(
        CollectionError::AlreadyBelow.message(),
        "[INFO] noop: todo is already below target"
    );
}

#[test]
fn remove_takes_the_first_with_the_identity() {
    let record = |created_at: i64| Todo::created_at("a".to_string(), TodoTime(created_at));
    let mut todos = TodoArrayList::from(vec![record(1), Todo::new("b".to_string()), record(2)]);
    assert_eq!(todos.find_index(&id_of("a")), Ok(0));
    assert_eq!(todos.find_index(&id_of("b")), Ok(1));
    assert_eq!(todos.remove(&id_of("a")), Ok(()));
    assert_eq!(messages(&todos), vec!["b", "a"]);
    assert_eq!(todos.get(&TodoID::hash_message("a")), Ok(record(2)));
    assert_eq!(todos.remove(&id_of("c")), Err(CollectionError::NotFound));
    assert_eq!(todos.find_index(&id_of("c")), Err(CollectionError::NotFound));
    assert_eq!(todos.len(), 2);
}

#[test]
fn mark_done_turns_the_mark() {
    let mut todos = list_of(&["a", "b"]);
    assert_eq!(todos.mark_done(&id_of("b")), Ok(()));
    let all = todos.get_all();
    assert!(!all[0].done);
    assert!(all[1].done);
    assert_eq!(todos.mark_done(&id_of("b")), Ok(()));
    assert!(!todos.get_all()[1].done);
    assert_eq!(todos.mark_done(&id_of("c")), Err(CollectionError::NotFound));
}

#[test]
fn remove_done_keeps_the_rest_in_order() {
    let mut todos = list_of(&["a", "b", "c", "d"]);
    todos.mark_done(&id_of("a")).unwrap();
    todos.mark_done(&id_of("c")).unwrap();
    todos.remove_done();
    assert_eq!(messages(&todos), vec!["b", "d"]);
    todos.remove_done();
    assert_eq!(messages(&todos), vec!["b", "d"]);
}

#[test]
fn move_up_and_down_swap_neighbours() {
    let mut todos = list_of(&["a", "b", "c"]);
    assert_eq!(todos.move_up(id_of("c")), Ok(()));
    assert_eq!(messages(&todos), vec!["a", "c", "b"]);
    assert_eq!(todos.move_down(id_of("a")), Ok(()));
    assert_eq!(messages(&todos), vec!["c", "a", "b"]);
    assert_eq!(todos.move_up(id_of("x")), Err(CollectionError::NotFound));
    assert_eq!(todos.move_down(id_of("x")), Err(CollectionError::NotFound));
}

#[test]
fn first_cannot_move_up_and_last_cannot_move_down() {
    let mut todos = list_of(&["a", "b", "c"]);
    assert_eq!(todos.move_up(id_of("a")), Err(CollectionError::AlreadyFirst));
    assert_eq!(todos.move_down(id_of("c")), Err(CollectionError::AlreadyLast));
    assert_eq!(messages(&todos), vec!["a", "b", "c"]);

    let mut one = list_of(&["a"]);
    assert_eq!(one.move_up(id_of("a")), Err(CollectionError::AlreadyFirst));
    assert_eq!(one.move_down(id_of("a")), Err(CollectionError::AlreadyLast));

    let mut none = TodoArrayList::new();
    assert_eq!(none.move_up(id_of("a")), Err(CollectionError::NotFound));
    assert_eq!(none.move_down(id_of("a")), Err(CollectionError::NotFound));

    assert_eq!(
        CollectionError::AlreadyFirst.message(),
        "[INFO] noop: todo is already at the top"
    );
    assert_eq!(
        CollectionError::AlreadyLast.message(),
        "[INFO] noop: todo is already at the bottom"
    );
}

#[test]
fn select_shows_all_or_what_is_left_to_do() {
    let mut todos = list_of(&["a", "b", "c"]);
    todos.mark_done(&id_of("b")).unwrap();
    let shown: Vec<String> = select_todos(todos.get_all(), true)
        .into_iter()
        .map(|t| t.message)
        .collect();
    assert_eq!(shown, vec!["a", "b", "c"]);
    let shown: Vec<String> = select_todos(todos.get_all(), false)
        .into_iter()
        .map(|t| t.message)
        .collect();
    assert_eq!(shown, vec!["a", "c"]);
}
