//! The tasks of the store, in their order.

use vstd::prelude::*;
use crate::identity::{same_text, sha256_hex, TodoID};
use crate::record::{Todo, TodoView};

verus! {

/// Why a change to the list was not made.
#[derive(Debug, PartialEq, Eq, Clone, Copy, Structural)]
pub enum CollectionError {
    /// The message of a new task is empty.
    EmptyMessage,
    /// No task has the identity that was given.
    NotFound,
    /// A task was to be moved below itself.
    BelowItself,
    /// The task already stands below the one it was to be moved below.
    AlreadyBelow,
    /// The task that was to be moved up is the first of the list.
    AlreadyFirst,
    /// The task that was to be moved down is the last of the list.
    AlreadyLast,
}

/// What an error says to the user.
pub open spec fn collection_error_message(error: CollectionError) -> Seq<char> {
    match error {
        CollectionError::EmptyMessage => "no sense in an empty todo message"@,
        CollectionError::NotFound => "didn't find a todo by the id provided"@,
        CollectionError::BelowItself => "[INFO] noop: won't move a todo item below itself"@,
        CollectionError::AlreadyBelow => "[INFO] noop: todo is already below target"@,
        CollectionError::AlreadyFirst => "[INFO] noop: todo is already at the top"@,
        CollectionError::AlreadyLast => "[INFO] noop: todo is already at the bottom"@,
    }
}

impl CollectionError {
    /// What the error says to the user.
    pub fn message(&self) -> (message: &'static str)
        ensures
            message@ == collection_error_message(*self),
    {
        match self {
            CollectionError::EmptyMessage => "no sense in an empty todo message",
            CollectionError::NotFound => "didn't find a todo by the id provided",
            CollectionError::BelowItself => "[INFO] noop: won't move a todo item below itself",
            CollectionError::AlreadyBelow => "[INFO] noop: todo is already below target",
            CollectionError::AlreadyFirst => "[INFO] noop: todo is already at the top",
            CollectionError::AlreadyLast => "[INFO] noop: todo is already at the bottom",
        }
    }
}

/// The index of the first record of `list` from `from` on that has the
/// identity `id`, or the length of `list` if there is none.
pub open spec fn first_index_from(list: Seq<TodoView>, id: Seq<char>, from: int) -> int
    decreases list.len() - from,
{
    if 0 <= from < list.len() && list[from].id != id {
        first_index_from(list, id, from + 1)
    } else {
        from
    }
}

/// The index of the first record of `list` that has the identity `id`, or
/// the length of `list` if there is none.
pub open spec fn first_index(list: Seq<TodoView>, id: Seq<char>) -> int {
    first_index_from(list, id, 0)
}

/// Whether a record of `list` has the identity `id`.
pub open spec fn has_id(list: Seq<TodoView>, id: Seq<char>) -> bool {
    first_index(list, id) < list.len()
}

/// `record` with its mark turned: done where it was not, and not done where
/// it was.
pub open spec fn toggled(record: TodoView) -> TodoView {
    TodoView { done: !record.done, ..record }
}

/// The records of `list` that are not done, in their order.
pub open spec fn not_done(list: Seq<TodoView>) -> Seq<TodoView>
    decreases list.len(),
{
    if list.len() == 0 {
        Seq::empty()
    } else if list.last().done {
        not_done(list.drop_last())
    } else {
        not_done(list.drop_last()).push(list.last())
    }
}

/// `list` with the records at `i` and `j` in each other's place.
pub open spec fn swapped(list: Seq<TodoView>, i: int, j: int) -> Seq<TodoView> {
    list.update(i, list[j]).update(j, list[i])
}

/// `list` with the record at `index` taken out and put back directly after
/// the first record with the identity `target`.
pub open spec fn moved_below(list: Seq<TodoView>, index: int, target: Seq<char>) -> Seq<TodoView> {
    let rest = list.remove(index);
    rest.insert(first_index(rest, target) + 1, list[index])
}

/// The first index lies between `from` and the end of the list, holds the
/// identity if it lies in the list, and no record before it holds the
/// identity.
pub proof fn lemma_first_index_from(list: Seq<TodoView>, id: Seq<char>, from: int)
    requires
        0 <= from <= list.len(),
    ensures
        from <= first_index_from(list, id, from) <= list.len(),
        first_index_from(list, id, from) < list.len() ==> list[first_index_from(
            list,
            id,
            from,
        )].id == id,
        forall|k: int|
            from <= k < first_index_from(list, id, from) ==> (#[trigger] list[k]).id != id,
    decreases list.len() - from,
{
    if from < list.len() && list[from].id != id {
        lemma_first_index_from(list, id, from + 1);
    }
}

/// The first index is the only one with the properties of
/// [`lemma_first_index_from`].
pub proof fn lemma_first_index_unique(list: Seq<TodoView>, id: Seq<char>, from: int, at: int)
    requires
        0 <= from <= at <= list.len(),
        at < list.len() ==> list[at].id == id,
        forall|k: int| from <= k < at ==> (#[trigger] list[k]).id != id,
    ensures
        first_index_from(list, id, from) == at,
    decreases at - from,
{
    if from < at {
        lemma_first_index_unique(list, id, from + 1, at);
    }
}

/// The tasks of the store, in the order in which they are shown: a new task
/// comes last.
#[derive(Debug)]
pub struct TodoArrayList {
    list: Vec<Todo>,
}

impl View for TodoArrayList {
    type V = Seq<TodoView>;

    closed spec fn view(&self) -> Seq<TodoView> {
        self.list.deep_view()
    }
}

/// A list of tasks that can be changed task by task.
pub trait TodoCollection {
    /// The records of the list, in their order.
    spec fn records(&self) -> Seq<TodoView>;

    /// The task with this message: the one that the list holds, or else a
    /// new one, which is put at the end of the list. This never fails.
    fn add(&mut self, message: &str) -> (added: Result<Todo, CollectionError>)
        ensures
            added matches Ok(todo) && {
                &&& todo@.id == sha256_hex(message@)
                &&& has_id(old(self).records(), todo@.id) ==> {
                    &&& final(self).records() == old(self).records()
                    &&& todo@ == old(self).records()[first_index(old(self).records(), todo@.id)]
                }
                &&& !has_id(old(self).records(), todo@.id) ==> {
                    &&& final(self).records() == old(self).records().push(todo@)
                    &&& todo@ == TodoView::fresh(message@, todo.created_at)
                }
            },
    ;

    /// Takes the first task with the identity `id` out of the list.
    fn remove(&mut self, id: &str) -> (removed: Result<(), CollectionError>)
        ensures
            match removed {
                Ok(_) => {
                    &&& has_id(old(self).records(), id@)
                    &&& final(self).records() == old(self).records().remove(
                        first_index(old(self).records(), id@),
                    )
                },
                Err(error) => {
                    &&& error == CollectionError::NotFound
                    &&& !has_id(old(self).records(), id@)
                    &&& final(self).records() == old(self).records()
                },
            },
    ;

    /// Whether a task has the identity `id`.
    fn contains(&self, id: &TodoID) -> (found: bool)
        ensures
            found == has_id(self.records(), id@),
    ;

    /// The number of tasks.
    fn len(&self) -> (len: usize)
        ensures
            len == self.records().len(),
    ;

    /// Turns the mark of the first task with the identity `id`: a task that
    /// was not done is done, and a task that was done is not.
    fn mark_done(&mut self, id: &str) -> (marked: Result<(), CollectionError>)
        ensures
            match marked {
                Ok(_) => {
                    &&& has_id(old(self).records(), id@)
                    &&& final(self).records() == old(self).records().update(
                        first_index(old(self).records(), id@),
                        toggled(old(self).records()[first_index(old(self).records(), id@)]),
                    )
                },
                Err(error) => {
                    &&& error == CollectionError::NotFound
                    &&& !has_id(old(self).records(), id@)
                    &&& final(self).records() == old(self).records()
                },
            },
    ;

    /// Takes the tasks that are done out of the list.
    fn remove_done(&mut self)
        ensures
            final(self).records() == not_done(old(self).records()),
    ;

    /// Moves the first task with the identity `id` one place towards the
    /// start of the list, unless it is the first already.
    fn move_up(&mut self, id: String) -> (moved: Result<(), CollectionError>)
        ensures
            match moved {
                Ok(_) => {
                    &&& has_id(old(self).records(), id@)
                    &&& final(self).records() == swapped(
                        old(self).records(),
                        first_index(old(self).records(), id@),
                        first_index(old(self).records(), id@) - 1,
                    )
                },
                Err(error) => {
                    &&& final(self).records() == old(self).records()
                    &&& error == move_up_error(old(self).records(), id@)->0
                },
            },
            moved is Err == move_up_error(old(self).records(), id@) is Some,
    ;

    /// Moves the first task with the identity `id` one place towards the
    /// end of the list, unless it is the last already.
    fn move_down(&mut self, id: String) -> (moved: Result<(), CollectionError>)
        ensures
            match moved {
                Ok(_) => {
                    &&& has_id(old(self).records(), id@)
                    &&& final(self).records() == swapped(
                        old(self).records(),
                        first_index(old(self).records(), id@),
                        first_index(old(self).records(), id@) + 1,
                    )
                },
                Err(error) => {
                    &&& final(self).records() == old(self).records()
                    &&& error == move_down_error(old(self).records(), id@)->0
                },
            },
            moved is Err == move_down_error(old(self).records(), id@) is Some,
    ;

    /// Moves the first task with the identity `id` to the place directly
    /// after the first task with the identity `target_id`.
    fn move_below(&mut self, id: &str, target_id: &str) -> (moved: Result<(), CollectionError>)
        ensures
            match moved {
                Ok(_) => {
                    &&& has_id(old(self).records(), id@)
                    &&& has_id(old(self).records(), target_id@)
                    &&& final(self).records() == moved_below(
                        old(self).records(),
                        first_index(old(self).records(), id@),
                        target_id@,
                    )
                },
                Err(error) => {
                    &&& final(self).records() == old(self).records()
                    &&& error == move_below_error(old(self).records(), id@, target_id@)->0
                },
            },
            moved is Err == move_below_error(old(self).records(), id@, target_id@) is Some,
    ;

    /// The first task with the identity `id`.
    fn get(&self, id: &TodoID) -> (todo: Result<Todo, CollectionError>)
        ensures
            match todo {
                Ok(found) => {
                    &&& has_id(self.records(), id@)
                    &&& found@ == self.records()[first_index(self.records(), id@)]
                },
                Err(error) => {
                    &&& error == CollectionError::NotFound
                    &&& !has_id(self.records(), id@)
                },
            },
    ;

    /// The tasks of the list, in their order.
    fn get_all(&self) -> (all: Vec<Todo>)
        ensures
            all.deep_view() == self.records(),
    ;
}

impl TodoArrayList {
    /// A list without tasks.
    pub fn new() -> (list: Self)
        ensures
            list@ == Seq::<TodoView>::empty(),
    {
        let list: Vec<Todo> = Vec::new();
        assert(list.deep_view() =~= Seq::<TodoView>::empty());
        Self { list }
    }

    /// The list of the tasks of `value`, in their order.
    pub fn from(value: Vec<Todo>) -> (list: Self)
        ensures
            list@ == value.deep_view(),
    {
        Self { list: value }
    }

    /// The index of the first task with the identity `id`.
    pub fn find_index(&self, id: &str) -> (index: Result<usize, CollectionError>)
        ensures
            match index {
                Ok(i) => i == first_index(self@, id@) && i < self@.len(),
                Err(error) => error == CollectionError::NotFound && !has_id(self@, id@),
            },
    {
        let mut i: usize = 0;
        while i < self.list.len()
            invariant
                i <= self.list.len(),
                first_index(self@, id@) == first_index_from(self@, id@, i as int),
            decreases self.list.len() - i,
        {
            if same_text(self.list[i].id.0.as_str(), id) {
                return Ok(i);
            }
            i += 1;
        }
        Err(CollectionError::NotFound)
    }

    /// Puts `todo` at the end of the list.
    pub fn add_todo(&mut self, todo: Todo)
        ensures
            final(self)@ == old(self)@.push(todo@),
    {
        let ghost before = self.list.deep_view();
        self.list.push(todo);
        assert(self.list.deep_view() =~= before.push(todo@));
    }

    /// As [`TodoArrayList::add`], but a task without a message is refused.
    pub fn add_message(&mut self, message: &str) -> (todo: Result<Todo, CollectionError>)
        ensures
            message@.len() == 0 <==> todo is Err,
            todo matches Err(error) ==> error == CollectionError::EmptyMessage && final(self)@
                == old(self)@,
            todo matches Ok(added) ==> {
                &&& added@.id == sha256_hex(message@)
                &&& has_id(old(self)@, added@.id) ==> final(self)@ == old(self)@ && added@
                    == old(self)@[first_index(old(self)@, added@.id)]
                &&& !has_id(old(self)@, added@.id) ==> final(self)@ == old(self)@.push(added@)
                    && added@ == TodoView::fresh(message@, added.created_at)
            },
    {
        if message.is_empty() {
            return Err(CollectionError::EmptyMessage);
        }
        self.add(message)
    }
}

impl TodoCollection for TodoArrayList {
    open spec fn records(&self) -> Seq<TodoView> {
        self@
    }

    fn add(&mut self, message: &str) -> (added: Result<Todo, CollectionError>)
    {
        let todo = Todo::new(message.to_owned());
        proof {
            lemma_first_index_from(self@, todo@.id, 0);
        }

        if self.contains(&todo.id) {
            return self.get(&todo.id);
        }
        self.add_todo(todo.clone());

        Ok(todo)
    }

    fn remove(&mut self, id: &str) -> (removed: Result<(), CollectionError>)
    {
        let index = match self.find_index(id) {
            Ok(index) => index,
            Err(error) => {
                return Err(error);
            },
        };
        let ghost before = self.list.deep_view();

        self.list.remove(index);

        assert(self.list.deep_view() =~= before.remove(index as int));
        Ok(())
    }

    fn contains(&self, id: &TodoID) -> (found: bool)
    {
        self.find_index(id.0.as_str()).is_ok()
    }

    fn len(&self) -> (len: usize)
    {
        self.list.len()
    }

    fn mark_done(&mut self, id: &str) -> (marked: Result<(), CollectionError>)
    {
        let idx = match self.find_index(id) {
            Ok(index) => index,
            Err(error) => {
                return Err(error);
            },
        };
        let ghost before = self.list.deep_view();

        let mut todo = self.list[idx].clone();
        todo.done = !todo.done;
        self.list.set(idx, todo);

        assert(self.list.deep_view() =~= before.update(idx as int, toggled(before[idx as int])));
        Ok(())
    }

    fn remove_done(&mut self)
    {
        let copy = self.get_all();
        let ghost all = copy.deep_view();
        let mut kept: Vec<Todo> = Vec::new();
        let mut i: usize = 0;
        proof {
            assert(kept.deep_view() =~= not_done(all.take(0)));
        }
        while i < copy.len()
            invariant
                i <= copy.len(),
                all == copy.deep_view(),
                kept.deep_view() == not_done(all.take(i as int)),
            decreases copy.len() - i,
        {
            let ghost before = kept.deep_view();
            proof {
                assert(all.take(i + 1).drop_last() =~= all.take(i as int));
                assert(all.take(i + 1).last() == all[i as int]);
            }
            if !copy[i].done {
                kept.push(copy[i].clone());
                proof {
                    assert(kept.deep_view() =~= before.push(all[i as int]));
                }
            }
            i += 1;
        }
        proof {
            assert(all.take(copy.len() as int) =~= all);
        }
        self.list = kept;
    }

    fn move_up(&mut self, id: String) -> (moved: Result<(), CollectionError>)
    {
        let idx = match self.find_index(id.as_str()) {
            Ok(index) => index,
            Err(error) => {
                return Err(error);
            },
        };
        let ghost before = self.list.deep_view();

        if idx == 0 {
            return Err(CollectionError::AlreadyFirst);
        }
        if idx < self.len() {
            let curr = self.list[idx].clone();
            let temp = self.list[idx - 1].clone();

            self.list.set(idx, temp);
            self.list.set(idx - 1, curr);
        }
        assert(self.list.deep_view() =~= swapped(before, idx as int, idx - 1));
        Ok(())
    }

    fn move_down(&mut self, id: String) -> (moved: Result<(), CollectionError>)
    {
        let idx = match self.find_index(id.as_str()) {
            Ok(index) => index,
            Err(error) => {
                return Err(error);
            },
        };
        let ghost before = self.list.deep_view();

        if self.len() - idx <= 1 {
            return Err(CollectionError::AlreadyLast);
        }
        if idx < self.len() {
            let curr = self.list[idx].clone();
            let temp = self.list[idx + 1].clone();

            self.list.set(idx, temp);
            self.list.set(idx + 1, curr);
        }
        assert(self.list.deep_view() =~= swapped(before, idx as int, idx + 1));
        Ok(())
    }

    fn move_below(&mut self, id: &str, target_id: &str) -> (moved: Result<(), CollectionError>) {
        let idx = match self.find_index(id) {
            Ok(index) => index,
            Err(error) => {
                return Err(error);
            },
        };
        let target_idx = match self.find_index(target_id) {
            Ok(index) => index,
            Err(error) => {
                return Err(error);
            },
        };
        assert(self.list.deep_view().len() == self.list.len());
        let below_target_idx = target_idx + 1;

        if idx == target_idx {
            return Err(CollectionError::BelowItself);
        }
        if idx == below_target_idx {
            return Err(CollectionError::AlreadyBelow);
        }
        let ghost before = self.list.deep_view();
        proof {
            lemma_first_index_from(before, id@, 0);
            lemma_first_index_from(before, target_id@, 0);
        }

        let source = self.list[idx].clone();

        if idx < target_idx {
            self.list.remove(idx);
            proof {
                let rest = before.remove(idx as int);
                assert(self.list.deep_view() =~= rest);
                assert forall|k: int| 0 <= k < target_idx - 1 implies (#[trigger] rest[k]).id
                    != target_id@ by {
                    if k < idx {
                        assert(rest[k] == before[k]);
                    } else {
                        assert(rest[k] == before[k + 1]);
                    }
                }
                assert(rest[target_idx - 1] == before[target_idx as int]);
                lemma_first_index_unique(rest, target_id@, 0, target_idx - 1);
            }
            self.list.insert(target_idx, source);
        } else {
            self.list.remove(idx);
            proof {
                let rest = before.remove(idx as int);
                assert(self.list.deep_view() =~= rest);
                assert forall|k: int| 0 <= k < target_idx implies (#[trigger] rest[k]).id
                    != target_id@ by {
                    assert(rest[k] == before[k]);
                }
                assert(rest[target_idx as int] == before[target_idx as int]);
                lemma_first_index_unique(rest, target_id@, 0, target_idx as int);
            }
            self.list.insert(below_target_idx, source);
        }
        assert(self.list.deep_view() =~= moved_below(before, idx as int, target_id@));
        Ok(())
    }

    fn get(&self, id: &TodoID) -> (todo: Result<Todo, CollectionError>)
    {
        match self.find_index(id.0.as_str()) {
            Ok(index) => Ok(self.list[index].clone()),
            Err(error) => Err(error),
        }
    }

    fn get_all(&self) -> (all: Vec<Todo>)
    {
        let mut all: Vec<Todo> = Vec::new();
        let mut i: usize = 0;
        while i < self.list.len()
            invariant
                i <= self.list.len(),
                all.deep_view() == self@.take(i as int),
            decreases self.list.len() - i,
        {
            let ghost before = all.deep_view();
            all.push(self.list[i].clone());
            proof {
                assert(all.deep_view() =~= before.push(self@[i as int]));
                assert(self@.take(i + 1) =~= self@.take(i as int).push(self@[i as int]));
            }
            i += 1;
        }
        proof {
            assert(self@.take(self.list.len() as int) =~= self@);
        }
        all
    }
}

/// The tasks of `todos` that are to be shown: all of them, or only those
/// that are not done.
pub fn select_todos(todos: Vec<Todo>, with_done: bool) -> (shown: Vec<Todo>)
    ensures
        shown.deep_view() == if with_done {
            todos.deep_view()
        } else {
            not_done(todos.deep_view())
        },
{
    if with_done {
        return todos;
    }
    let mut list = TodoArrayList::from(todos);
    list.remove_done();
    list.get_all()
}

/// Why a task cannot be moved up, if it cannot: it is missing, or it is
/// the first of the list.
pub open spec fn move_up_error(list: Seq<TodoView>, id: Seq<char>) -> Option<CollectionError> {
    if !has_id(list, id) {
        Some(CollectionError::NotFound)
    } else if first_index(list, id) == 0 {
        Some(CollectionError::AlreadyFirst)
    } else {
        None
    }
}

/// Why a task cannot be moved down, if it cannot: it is missing, or it is
/// the last of the list.
pub open spec fn move_down_error(list: Seq<TodoView>, id: Seq<char>) -> Option<CollectionError> {
    if !has_id(list, id) {
        Some(CollectionError::NotFound)
    } else if first_index(list, id) == list.len() - 1 {
        Some(CollectionError::AlreadyLast)
    } else {
        None
    }
}

/// Why a task cannot be moved below another, if it cannot: one of the two
/// is missing, the two are one, or the task stands below the other already.
pub open spec fn move_below_error(list: Seq<TodoView>, id: Seq<char>, target: Seq<char>) -> Option<
    CollectionError,
> {
    if !has_id(list, id) || !has_id(list, target) {
        Some(CollectionError::NotFound)
    } else if first_index(list, id) == first_index(list, target) {
        Some(CollectionError::BelowItself)
    } else if first_index(list, id) == first_index(list, target) + 1 {
        Some(CollectionError::AlreadyBelow)
    } else {
        None
    }
}

} // verus!
