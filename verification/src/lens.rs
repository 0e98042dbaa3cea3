//! What an editor shows above the tasks of a buffer.

use vstd::prelude::*;
use vstd::string::StringExecFns;
use crate::identity::{sha256_hex, TodoID};
use crate::parser::{outcome_view, Item, Outcome, Text, TodoItem};
use crate::reconcile::{editor_range, find_in_store, find_record};
use crate::record::{Todo, TodoView};
use crate::span::{EditorRange, Span};

verus! {

/// A line that an editor shows above a task, with the command that it runs
/// when it is chosen.
#[derive(Debug, PartialEq, Eq)]
pub struct CodeLens {
    pub range: EditorRange,
    pub title: String,
    pub command: String,
    pub argument: String,
}

/// A [`CodeLens`] with its strings as sequences of characters.
pub ghost struct CodeLensView {
    pub range: EditorRange,
    pub title: Seq<char>,
    pub command: Seq<char>,
    pub argument: Seq<char>,
}

impl View for CodeLens {
    type V = CodeLensView;

    open spec fn view(&self) -> CodeLensView {
        CodeLensView {
            range: self.range,
            title: self.title@,
            command: self.command@,
            argument: self.argument@,
        }
    }
}

impl DeepView for CodeLens {
    type V = CodeLensView;

    open spec fn deep_view(&self) -> CodeLensView {
        self@
    }
}

/// The title of the lens of a task: its mark, then the date on which it was
/// made.
pub open spec fn lens_title(done: bool, date: Seq<char>) -> Seq<char> {
    (if done {
        "[x]"@
    } else {
        "[ ]"@
    }) + ", "@ + "created on: "@ + date
}

/// The tasks of a parsed text that the store holds a record of: the span
/// of each with the record that is found under the identity of its message,
/// in the order of the text.
pub open spec fn lens_targets(outcome: Seq<Outcome>, store: Seq<TodoView>) -> Seq<(Span, TodoView)>
    decreases outcome.len(),
{
    if outcome.len() == 0 {
        Seq::empty()
    } else {
        let before = lens_targets(outcome.drop_last(), store);
        match outcome.last() {
            Ok(item) => match find_record(store, sha256_hex(item.todo().message)) {
                Some(record) => before.push((item.todo().span, record)),
                None => before,
            },
            Err(_) => before,
        }
    }
}

/// Whether `lens` is the lens of the task at `span` with the record
/// `record`: it lies on the task, shows the mark of the record and some
/// date, and marks the record when it is chosen.
pub open spec fn is_lens_of(lens: CodeLensView, span: Span, record: TodoView) -> bool {
    &&& lens.range == editor_range(span)
    &&& exists|date: Seq<char>| lens.title == lens_title(record.done, date)
    &&& lens.command == "mark_done"@
    &&& lens.argument == record.id
}

/// The title of the lens of a task with this mark that was made on `date`.
pub fn title_of(done: bool, date: &str) -> (title: String)
    ensures
        title@ == lens_title(done, date@),
{
    let is_done = if done {
        "[x]"
    } else {
        "[ ]"
    };
    let mut title = is_done.to_owned();
    title.append(", ");
    title.append("created on: ");
    title.append(date);
    title
}

/// The lenses of a parsed text: one for each task of which the store holds
/// a record, in the order of the text. The date in the title of a lens is
/// the time at which the record was made, in the time zone of the machine.
pub fn code_lenses(text: &Text, store: &Vec<Todo>) -> (lenses: Vec<CodeLens>)
    ensures
        lenses.len() == lens_targets(text@, store.deep_view()).len(),
        forall|k: int|
            0 <= k < lenses.len() ==> is_lens_of(
                #[trigger] lenses.deep_view()[k],
                lens_targets(text@, store.deep_view())[k].0,
                lens_targets(text@, store.deep_view())[k].1,
            ),
{
    let ghost outcome = text@;
    let ghost records = store.deep_view();
    let mut lenses: Vec<CodeLens> = Vec::new();
    let n = text.items.len();
    let mut i: usize = 0;
    while i < n
        invariant
            i <= n,
            n == text.items.len(),
            outcome == text@,
            outcome.len() == n,
            records == store.deep_view(),
            lenses.len() == lens_targets(outcome.take(i as int), records).len(),
            forall|k: int|
                0 <= k < lenses.len() ==> is_lens_of(
                    #[trigger] lenses.deep_view()[k],
                    lens_targets(outcome.take(i as int), records)[k].0,
                    lens_targets(outcome.take(i as int), records)[k].1,
                ),
        decreases n - i,
    {
        let ghost before = lenses.deep_view();
        let ghost targets = lens_targets(outcome.take(i as int), records);
        proof {
            assert(outcome.take(i + 1).drop_last() =~= outcome.take(i as int));
            assert(outcome.take(i + 1).last() == outcome[i as int]);
            assert(outcome[i as int] == outcome_view(text.items@[i as int]));
        }
        match &text.items[i] {
            Ok(item) => {
                let item: &TodoItem = match item {
                    Item::OneLine(t) => t,
                    Item::Multiline(t) => t,
                };
                let todoid = TodoID::hash_message(item.message.as_str());
                match find_in_store(store, &todoid) {
                    Some(todo) => {
                        let date = todo.created_at.to_local_date_string();
                        let lens = CodeLens {
                            range: item.span.into_lsp_range(),
                            title: title_of(todo.done, date.as_str()),
                            command: "mark_done".to_owned(),
                            argument: todo.id.0.clone(),
                        };
                        proof {
                            assert(lens@.title == lens_title(todo@.done, date@));
                            assert(is_lens_of(lens@, item.span, todo@));
                        }
                        lenses.push(lens);
                        proof {
                            assert(lenses.deep_view() =~= before.push(lens@));
                            let after = lens_targets(outcome.take(i + 1), records);
                            assert(after == targets.push((item.span, todo@)));
                            assert forall|k: int| 0 <= k < lenses.len() implies is_lens_of(
                                #[trigger] lenses.deep_view()[k],
                                after[k].0,
                                after[k].1,
                            ) by {
                                if k < before.len() {
                                    assert(lenses.deep_view()[k] == before[k]);
                                    assert(after[k] == targets[k]);
                                }
                            }
                        }
                    },
                    None => {},
                }
            },
            Err(_) => {},
        }
        i += 1;
    }
    proof {
        assert(outcome.take(n as int) =~= outcome);
    }
    lenses
}

} // verus!
