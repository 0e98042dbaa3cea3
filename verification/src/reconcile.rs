//! Keeping the store in step with a buffer.
//!
//! Each time a buffer changes it is parsed again in full. From the parsed
//! text, the records of the store and the identities that the buffer held
//! the time before, [`Engine::reconcile`] works out which records to put
//! into the store, which to take out of it, and what to tell the user about
//! the mistakes in the text.

use vstd::prelude::*;
use crate::identity::{sha256_hex, TodoID};
use crate::membership::{each_identity_once, no_entries, BufferMembership, Entries};
use crate::parser::{
    error_message, error_span, outcome_view, Item, ItemView, Outcome, ParseError, Text, TodoItem,
};
use crate::record::{Todo, TodoView};
use crate::span::{EditorPosition, EditorRange, Span};

verus! {

/// A remark on a range of the text, for the user.
#[derive(Debug, PartialEq, Eq)]
pub struct Diagnostic {
    pub range: EditorRange,
    pub message: String,
}

/// A [`Diagnostic`] with its message as a sequence of characters.
pub ghost struct DiagnosticView {
    pub range: EditorRange,
    pub message: Seq<char>,
}

impl View for Diagnostic {
    type V = DiagnosticView;

    open spec fn view(&self) -> DiagnosticView {
        DiagnosticView { range: self.range, message: self.message@ }
    }
}

impl DeepView for Diagnostic {
    type V = DiagnosticView;

    open spec fn deep_view(&self) -> DiagnosticView {
        self@
    }
}

/// What a reconciliation asks for: the records to put into the store, the
/// identities of the records to take out of it, and the remarks on the text.
#[derive(Debug)]
pub struct Reconciliation {
    pub upserts: Vec<Todo>,
    pub retractions: Vec<TodoID>,
    pub diagnostics: Vec<Diagnostic>,
}

/// A [`Reconciliation`] with its strings as sequences of characters.
pub ghost struct ReconciliationView {
    pub upserts: Seq<TodoView>,
    pub retractions: Seq<Seq<char>>,
    pub diagnostics: Seq<DiagnosticView>,
}

impl View for Reconciliation {
    type V = ReconciliationView;

    open spec fn view(&self) -> ReconciliationView {
        ReconciliationView {
            upserts: self.upserts.deep_view(),
            retractions: self.retractions.deep_view(),
            diagnostics: self.diagnostics.deep_view(),
        }
    }
}

/// The editor range of a span: the lines and columns of its two ends.
pub open spec fn editor_range(span: Span) -> EditorRange {
    EditorRange {
        start: EditorPosition { line: span.start.line, character: span.start.col },
        end: EditorPosition { line: span.end.line, character: span.end.col },
    }
}

/// The identities of `messages`.
pub open spec fn ids_of(messages: Seq<Seq<char>>) -> Seq<Seq<char>> {
    messages.map_values(|m: Seq<char>| sha256_hex(m))
}

/// The messages of the tasks of a parsed text, in the order of the text,
/// each identity once: of the tasks with one identity the first is kept.
pub open spec fn kept_messages(outcome: Seq<Outcome>) -> Seq<Seq<char>>
    decreases outcome.len(),
{
    if outcome.len() == 0 {
        Seq::empty()
    } else {
        let before = kept_messages(outcome.drop_last());
        match outcome.last() {
            Ok(item) => if ids_of(before).contains(sha256_hex(item.todo().message)) {
                before
            } else {
                before.push(item.todo().message)
            },
            Err(_) => before,
        }
    }
}

/// The remark that an error of the text gives rise to.
pub open spec fn diagnostic_of(error: ParseError) -> DiagnosticView {
    DiagnosticView { range: editor_range(error_span(error)), message: error_message(error) }
}

/// The remarks on a parsed text: one for each error, in the order of the
/// text.
pub open spec fn diagnostics_of(outcome: Seq<Outcome>) -> Seq<DiagnosticView>
    decreases outcome.len(),
{
    if outcome.len() == 0 {
        Seq::empty()
    } else {
        let before = diagnostics_of(outcome.drop_last());
        match outcome.last() {
            Ok(_) => before,
            Err(error) => before.push(diagnostic_of(error)),
        }
    }
}

/// The record that the store holds under `id`: the last one with that
/// identity, or none.
pub open spec fn find_record(store: Seq<TodoView>, id: Seq<char>) -> Option<TodoView>
    decreases store.len(),
{
    if store.len() == 0 {
        None
    } else if store.last().id == id {
        Some(store.last())
    } else {
        find_record(store.drop_last(), id)
    }
}

/// Whether `record` is what is put into the store for a task with this
/// message: the record that the store holds under the identity of the
/// message, as it is, or else a new record with that message, not done.
pub open spec fn is_upsert_for(store: Seq<TodoView>, message: Seq<char>, record: TodoView) -> bool {
    match find_record(store, sha256_hex(message)) {
        Some(found) => record == found,
        None => record == TodoView::fresh(message, record.created_at),
    }
}

/// The identities of `previous` that are not among `current`, in the order
/// of `previous`.
pub open spec fn retractions_of(previous: Seq<Seq<char>>, current: Seq<Seq<char>>) -> Seq<
    Seq<char>,
>
    decreases previous.len(),
{
    if previous.len() == 0 {
        Seq::empty()
    } else {
        let before = retractions_of(previous.drop_last(), current);
        if current.contains(previous.last()) {
            before
        } else {
            before.push(previous.last())
        }
    }
}

/// Whether `result` reconciles a buffer that held `previous` and now parses
/// to `outcome` with the records of `store`.
///
/// There is one upsert for each identity among the tasks of the text, in the
/// order in which the identities first occur. Every identity of `previous`
/// that the text no longer holds is retracted, and every error of the text
/// is remarked on.
pub open spec fn reconciles(
    previous: Seq<Seq<char>>,
    outcome: Seq<Outcome>,
    store: Seq<TodoView>,
    result: ReconciliationView,
) -> bool {
    let kept = kept_messages(outcome);
    &&& result.upserts.len() == kept.len()
    &&& forall|k: int|
        0 <= k < kept.len() ==> is_upsert_for(store, kept[k], #[trigger] result.upserts[k])
    &&& result.retractions == retractions_of(previous, ids_of(kept))
    &&& result.diagnostics == diagnostics_of(outcome)
}

/// A record that is found under an identity has that identity, and is one
/// of the records of the store.
pub proof fn lemma_find_record(store: Seq<TodoView>, id: Seq<char>)
    ensures
        find_record(store, id) matches Some(found) ==> found.id == id && store.contains(found),
        find_record(store, id) is None ==> forall|k: int|
            0 <= k < store.len() ==> (#[trigger] store[k]).id != id,
    decreases store.len(),
{
    if store.len() > 0 {
        if store.last().id == id {
            assert(store[store.len() - 1] == store.last());
        } else {
            lemma_find_record(store.drop_last(), id);
            match find_record(store.drop_last(), id) {
                Some(found) => {
                    let k = choose|k: int|
                        0 <= k < store.drop_last().len() && store.drop_last()[k] == found;
                    assert(store[k] == found);
                },
                None => {
                    assert forall|k: int| 0 <= k < store.len() implies (#[trigger] store[k]).id
                        != id by {
                        if k < store.len() - 1 {
                            assert(store.drop_last()[k] == store[k]);
                        }
                    }
                },
            }
        }
    }
}

/// What is put into the store for a message has the identity of the
/// message.
pub proof fn lemma_upsert_identity(store: Seq<TodoView>, message: Seq<char>, record: TodoView)
    requires
        is_upsert_for(store, message, record),
    ensures
        record.id == sha256_hex(message),
{
    lemma_find_record(store, sha256_hex(message));
}

/// No identity is kept twice.
pub proof fn lemma_kept_ids_distinct(outcome: Seq<Outcome>)
    ensures
        ids_of(kept_messages(outcome)).no_duplicates(),
    decreases outcome.len(),
{
    if outcome.len() > 0 {
        lemma_kept_ids_distinct(outcome.drop_last());
        let before = kept_messages(outcome.drop_last());
        match outcome.last() {
            Ok(item) => {
                let id = sha256_hex(item.todo().message);
                if !ids_of(before).contains(id) {
                    assert(ids_of(before.push(item.todo().message)) =~= ids_of(before).push(id));
                }
            },
            Err(_) => {},
        }
    }
}

/// Every task of the text has its identity among those that are kept, and
/// every identity that is kept is that of a task of the text.
pub proof fn lemma_kept_ids_cover(outcome: Seq<Outcome>, id: Seq<char>)
    ensures
        ids_of(kept_messages(outcome)).contains(id) <==> exists|k: int|
            0 <= k < outcome.len() && (#[trigger] outcome[k]) is Ok && sha256_hex(
                outcome[k]->Ok_0.todo().message,
            ) == id,
    decreases outcome.len(),
{
    if outcome.len() > 0 {
        let front = outcome.drop_last();
        lemma_kept_ids_cover(front, id);
        let before = kept_messages(front);
        let last = outcome.len() - 1;
        assert(forall|k: int| 0 <= k < front.len() ==> front[k] == outcome[k]);
        if ids_of(kept_messages(outcome)).contains(id) {
            if ids_of(before).contains(id) {
                let k = choose|k: int|
                    0 <= k < front.len() && (#[trigger] front[k]) is Ok && sha256_hex(
                        front[k]->Ok_0.todo().message,
                    ) == id;
                assert(outcome[k] is Ok);
            } else {
                let message = outcome.last()->Ok_0.todo().message;
                assert(ids_of(before.push(message)) =~= ids_of(before).push(sha256_hex(message)));
                let at = choose|at: int|
                    0 <= at < ids_of(before).push(sha256_hex(message)).len() && ids_of(
                        before,
                    ).push(sha256_hex(message))[at] == id;
                if at < ids_of(before).len() {
                    assert(ids_of(before)[at] == id);
                }
                assert(outcome[last] is Ok);
            }
        }
        if exists|k: int|
            0 <= k < outcome.len() && (#[trigger] outcome[k]) is Ok && sha256_hex(
                outcome[k]->Ok_0.todo().message,
            ) == id {
            let k = choose|k: int|
                0 <= k < outcome.len() && (#[trigger] outcome[k]) is Ok && sha256_hex(
                    outcome[k]->Ok_0.todo().message,
                ) == id;
            if k < last {
                assert(front[k] is Ok);
                assert(ids_of(before).contains(id));
                let at = choose|at: int| 0 <= at < ids_of(before).len() && ids_of(before)[at] == id;
                if kept_messages(outcome) != before {
                    let message = outcome.last()->Ok_0.todo().message;
                    assert(ids_of(before.push(message))[at] == id);
                }
            } else {
                let message = outcome.last()->Ok_0.todo().message;
                if !ids_of(before).contains(id) {
                    assert(ids_of(before.push(message))[before.len() as int] == id);
                }
            }
        }
    }
}

/// An identity is retracted if and only if the buffer held it before and
/// does not hold it now.
pub proof fn lemma_retracted_iff_gone(
    previous: Seq<Seq<char>>,
    current: Seq<Seq<char>>,
    id: Seq<char>,
)
    ensures
        retractions_of(previous, current).contains(id) <==> previous.contains(id)
            && !current.contains(id),
    decreases previous.len(),
{
    if previous.len() > 0 {
        let front = previous.drop_last();
        let before = retractions_of(front, current);
        lemma_retracted_iff_gone(front, current, id);
        assert(forall|k: int| 0 <= k < front.len() ==> front[k] == previous[k]);
        if previous.contains(id) {
            let k = choose|k: int| 0 <= k < previous.len() && previous[k] == id;
            if k < front.len() {
                assert(front[k] == id);
            }
        }
        if front.contains(id) {
            let k = choose|k: int| 0 <= k < front.len() && front[k] == id;
            assert(previous[k] == id);
        }
        if !current.contains(previous.last()) {
            let after = before.push(previous.last());
            if before.contains(id) {
                let k = choose|k: int| 0 <= k < before.len() && before[k] == id;
                assert(after[k] == id);
            }
            if after.contains(id) {
                let k = choose|k: int| 0 <= k < after.len() && after[k] == id;
                if k < before.len() {
                    assert(before[k] == id);
                }
            }
            assert(after[before.len() as int] == previous.last());
            assert(previous[previous.len() - 1] == previous.last());
        } else {
            assert(previous[previous.len() - 1] == previous.last());
        }
    }
}

/// An identity is retracted by a reconciliation if and only if the buffer
/// held it before and no task of the text has it now.
pub proof fn lemma_retracted_iff_absent(
    previous: Seq<Seq<char>>,
    outcome: Seq<Outcome>,
    store: Seq<TodoView>,
    result: ReconciliationView,
    id: Seq<char>,
)
    requires
        reconciles(previous, outcome, store, result),
    ensures
        result.retractions.contains(id) <==> previous.contains(id) && !exists|k: int|
            0 <= k < outcome.len() && (#[trigger] outcome[k]) is Ok && sha256_hex(
                outcome[k]->Ok_0.todo().message,
            ) == id,
{
    lemma_retracted_iff_gone(previous, ids_of(kept_messages(outcome)), id);
    lemma_kept_ids_cover(outcome, id);
}

/// No identity is retracted twice, where the buffer held none twice.
pub proof fn lemma_retractions_distinct(previous: Seq<Seq<char>>, current: Seq<Seq<char>>)
    requires
        previous.no_duplicates(),
    ensures
        retractions_of(previous, current).no_duplicates(),
    decreases previous.len(),
{
    if previous.len() > 0 {
        let front = previous.drop_last();
        let before = retractions_of(front, current);
        assert(forall|k: int| 0 <= k < front.len() ==> front[k] == previous[k]);
        lemma_retractions_distinct(front, current);
        if !current.contains(previous.last()) {
            lemma_retracted_iff_gone(front, current, previous.last());
            if front.contains(previous.last()) {
                let k = choose|k: int| 0 <= k < front.len() && front[k] == previous.last();
                assert(previous[k] == previous[previous.len() - 1]);
            }
            let after = before.push(previous.last());
            assert forall|i: int, j: int| 0 <= i < after.len() && 0 <= j < after.len() && i
                != j implies after[i] != after[j] by {
                if i < before.len() && j < before.len() {
                } else if i < before.len() {
                    assert(before.contains(before[i]));
                } else if j < before.len() {
                    assert(before.contains(before[j]));
                }
            }
        }
    }
}

/// A task whose identity the text holds already adds nothing to what is
/// kept: a message that is repeated collapses into one.
pub proof fn lemma_repeated_message_collapses(outcome: Seq<Outcome>, item: ItemView)
    requires
        ids_of(kept_messages(outcome)).contains(sha256_hex(item.todo().message)),
    ensures
        kept_messages(outcome.push(Ok(item))) == kept_messages(outcome),
{
    assert(outcome.push(Ok(item)).drop_last() =~= outcome);
}

/// Nothing is retracted from a buffer that still holds all it held.
pub proof fn lemma_nothing_gone(previous: Seq<Seq<char>>, current: Seq<Seq<char>>)
    requires
        forall|k: int| 0 <= k < previous.len() ==> current.contains(#[trigger] previous[k]),
    ensures
        retractions_of(previous, current) == Seq::<Seq<char>>::empty(),
    decreases previous.len(),
{
    if previous.len() > 0 {
        let front = previous.drop_last();
        assert(forall|k: int| 0 <= k < front.len() ==> front[k] == previous[k]);
        lemma_nothing_gone(front, current);
        assert(previous[previous.len() - 1] == previous.last());
    }
}

/// Reconciling the same text a second time changes nothing.
///
/// Let `first` reconcile a text, and let the store then hold each record
/// that `first` asked to put into it. Whatever reconciles the same text with
/// that store next asks for the same records again, as the store holds
/// them, and retracts nothing.
pub proof fn lemma_reconcile_converges(
    previous: Seq<Seq<char>>,
    outcome: Seq<Outcome>,
    store: Seq<TodoView>,
    first: ReconciliationView,
    next_store: Seq<TodoView>,
    second: ReconciliationView,
)
    requires
        reconciles(previous, outcome, store, first),
        forall|k: int|
            0 <= k < first.upserts.len() ==> find_record(
                next_store,
                (#[trigger] first.upserts[k]).id,
            ) == Some(first.upserts[k]),
        reconciles(ids_of(kept_messages(outcome)), outcome, next_store, second),
    ensures
        second.upserts == first.upserts,
        second.retractions == Seq::<Seq<char>>::empty(),
{
    let kept = kept_messages(outcome);
    assert forall|k: int| 0 <= k < kept.len() implies second.upserts[k] == first.upserts[k] by {
        lemma_upsert_identity(store, kept[k], first.upserts[k]);
    }
    assert(second.upserts =~= first.upserts);
    let ids = ids_of(kept);
    assert forall|k: int| 0 <= k < ids.len() implies ids.contains(#[trigger] ids[k]) by {}
    lemma_nothing_gone(ids, ids);
}

/// A task that has left the buffer is retracted, and the task that stays
/// is not made anew.
///
/// Let a buffer hold the tasks `stays` and `leaves`, of different
/// identities, and then `stays` alone, while the store holds a record of
/// `stays`. Then exactly the identity of `leaves` is retracted, and the one
/// upsert is the record that the store holds already.
pub proof fn lemma_deletion_detected(
    stays: Seq<char>,
    leaves: Seq<char>,
    before: Seq<Outcome>,
    after: Seq<Outcome>,
    store: Seq<TodoView>,
    result: ReconciliationView,
)
    requires
        sha256_hex(stays) != sha256_hex(leaves),
        kept_messages(before) == seq![stays, leaves],
        kept_messages(after) == seq![stays],
        find_record(store, sha256_hex(stays)) is Some,
        reconciles(ids_of(kept_messages(before)), after, store, result),
    ensures
        result.retractions == seq![sha256_hex(leaves)],
        result.upserts == seq![find_record(store, sha256_hex(stays))->0],
{
    let previous = ids_of(seq![stays, leaves]);
    let current = ids_of(seq![stays]);
    assert(previous =~= seq![sha256_hex(stays), sha256_hex(leaves)]);
    assert(current =~= seq![sha256_hex(stays)]);
    assert(current[0] == sha256_hex(stays));
    assert(previous.drop_last() =~= seq![sha256_hex(stays)]);
    assert(previous.drop_last().drop_last() =~= Seq::<Seq<char>>::empty());
    reveal_with_fuel(retractions_of, 3);
    assert(retractions_of(previous, current) =~= seq![sha256_hex(leaves)]);
    assert(is_upsert_for(store, kept_messages(after)[0], result.upserts[0]));
    assert(result.upserts =~= seq![find_record(store, sha256_hex(stays))->0]);
}

/// Reconciles buffers with a store, one document at a time.
pub struct Engine {
    membership: BufferMembership,
}

impl View for Engine {
    type V = Entries;

    closed spec fn view(&self) -> Entries {
        self.membership@
    }
}

/// The last record of `store` with the identity `id`.
pub fn find_in_store<'a>(store: &'a Vec<Todo>, id: &TodoID) -> (found: Option<&'a Todo>)
    ensures
        found is Some == find_record(store.deep_view(), id@) is Some,
        found is Some ==> found->0@ == find_record(store.deep_view(), id@)->0,
{
    let mut i: usize = store.len();
    let ghost all = store.deep_view();
    proof {
        assert(all.take(i as int) =~= all);
    }
    while i > 0
        invariant
            i <= store.len(),
            all == store.deep_view(),
            find_record(all, id@) == find_record(all.take(i as int), id@),
        decreases i,
    {
        proof {
            assert(all.take(i as int).drop_last() =~= all.take(i - 1));
        }
        i -= 1;
        if store[i].id.same_as(id) {
            return Some(&store[i]);
        }
    }
    None
}

/// Whether `id` is among `ids`.
pub fn contains_id(ids: &Vec<String>, id: &String) -> (found: bool)
    ensures
        found == ids.deep_view().contains(id@),
{
    let mut i: usize = 0;
    while i < ids.len()
        invariant
            i <= ids.len(),
            forall|k: int| 0 <= k < i ==> ids.deep_view()[k] != id@,
        decreases ids.len() - i,
    {
        if ids[i] == *id {
            assert(ids.deep_view()[i as int] == id@);
            return true;
        }
        i += 1;
    }
    false
}

/// The identities of `previous` that are not among `current`, in the order
/// of `previous`: those of the tasks that have left the buffer.
pub fn retractions(previous: &Vec<String>, current: &Vec<String>) -> (gone: Vec<TodoID>)
    ensures
        gone.deep_view() == retractions_of(previous.deep_view(), current.deep_view()),
{
    let mut gone: Vec<TodoID> = Vec::new();
    let m = previous.len();
    let mut j: usize = 0;
    let ghost seen = previous.deep_view();
    proof {
        assert(gone.deep_view() =~= retractions_of(seen.take(0), current.deep_view()));
    }
    while j < m
        invariant
            j <= m,
            m == previous.len(),
            seen == previous.deep_view(),
            gone.deep_view() == retractions_of(seen.take(j as int), current.deep_view()),
        decreases m - j,
    {
        let ghost before = gone.deep_view();
        proof {
            assert(seen.take(j + 1).drop_last() =~= seen.take(j as int));
            assert(seen.take(j + 1).last() == seen[j as int]);
        }
        if !contains_id(current, &previous[j]) {
            let id = TodoID(previous[j].clone());
            gone.push(id);
            proof {
                assert(gone.deep_view() =~= before.push(seen[j as int]));
            }
        }
        j += 1;
    }
    proof {
        assert(seen.take(m as int) =~= seen);
    }
    gone
}

impl Engine {
    /// The identities that `document` held when it was last reconciled, and
    /// none for a document that is not tracked.
    pub open spec fn last_seen(&self, document: Seq<char>) -> Seq<Seq<char>> {
        if self@.contains_key(document) {
            self@[document]
        } else {
            Seq::empty()
        }
    }

    /// The invariant of the type: no document holds an identity twice.
    pub open spec fn wf(&self) -> bool {
        each_identity_once(self@)
    }

    /// An engine that tracks no document.
    pub fn new() -> (engine: Engine)
        ensures
            engine@ == no_entries(),
            engine.wf(),
    {
        Engine { membership: BufferMembership::new() }
    }

    /// Reconciles `document`, whose buffer parses to `parsed`, with the
    /// records of `store`, and remembers the identities that the buffer
    /// holds now.
    pub fn reconcile(&mut self, document: &str, parsed: &Text, store: &Vec<Todo>) -> (result:
        Reconciliation)
        requires
            old(self).wf(),
        ensures
            final(self).wf(),
            reconciles(old(self).last_seen(document@), parsed@, store.deep_view(), result@),
            final(self)@ == old(self)@.insert(document@, ids_of(kept_messages(parsed@))),
            result@.retractions.no_duplicates(),
    {
        let previous = self.membership.get(document);
        let ghost outcome = parsed@;
        let ghost records = store.deep_view();

        let mut upserts: Vec<Todo> = Vec::new();
        let mut current: Vec<String> = Vec::new();
        let mut diagnostics: Vec<Diagnostic> = Vec::new();
        let ghost mut kept: Seq<Seq<char>> = Seq::empty();

        let n = parsed.items.len();
        let mut i: usize = 0;
        proof {
            assert(current.deep_view() =~= ids_of(kept));
            assert(diagnostics.deep_view() =~= diagnostics_of(outcome.take(0)));
        }
        while i < n
            invariant
                i <= n,
                n == parsed.items.len(),
                outcome == parsed@,
                outcome.len() == n,
                records == store.deep_view(),
                kept == kept_messages(outcome.take(i as int)),
                current.deep_view() == ids_of(kept),
                upserts.len() == kept.len(),
                forall|k: int|
                    0 <= k < kept.len() ==> is_upsert_for(
                        records,
                        kept[k],
                        #[trigger] upserts.deep_view()[k],
                    ),
                diagnostics.deep_view() == diagnostics_of(outcome.take(i as int)),
            decreases n - i,
        {
            let ghost before_upserts = upserts.deep_view();
            let ghost before_diagnostics = diagnostics.deep_view();
            let ghost before_current = current.deep_view();
            proof {
                assert(outcome.take(i + 1).drop_last() =~= outcome.take(i as int));
                assert(outcome.take(i + 1).last() == outcome[i as int]);
                assert(outcome[i as int] == outcome_view(parsed.items@[i as int]));
            }
            match &parsed.items[i] {
                Ok(item) => {
                    let todo: &TodoItem = match item {
                        Item::OneLine(t) => t,
                        Item::Multiline(t) => t,
                    };
                    let id = TodoID::hash_message(todo.message.as_str());
                    if !contains_id(&current, &id.0) {
                        let record = match find_in_store(store, &id) {
                            Some(found) => found.clone(),
                            None => Todo::new(todo.message.clone()),
                        };
                        upserts.push(record);
                        current.push(id.0);
                        proof {
                            kept = kept.push(todo.message@);
                            assert(upserts.deep_view() =~= before_upserts.push(record@));
                            assert(current.deep_view() =~= before_current.push(id@));
                            assert(ids_of(kept) =~= before_current.push(id@));
                        }
                    }
                },
                Err(error) => {
                    let diagnostic = Diagnostic {
                        range: error.span().into_lsp_range(),
                        message: error.message(),
                    };
                    diagnostics.push(diagnostic);
                    proof {
                        assert(diagnostics.deep_view() =~= before_diagnostics.push(
                            diagnostic_of(*error),
                        ));
                    }
                },
            }
            i += 1;
        }
        proof {
            assert(outcome.take(n as int) =~= outcome);
        }

        let retractions = retractions(&previous, &current);
        proof {
            lemma_kept_ids_distinct(outcome);
            lemma_retractions_distinct(previous.deep_view(), current.deep_view());
        }

        self.membership.set(document, current);

        Reconciliation { upserts, retractions, diagnostics }
    }

    /// Forgets `document`, as when its buffer is closed: it is no longer
    /// tracked, and the documents beside it stay as they are.
    pub fn close(&mut self, document: &str)
        requires
            old(self).wf(),
        ensures
            final(self).wf(),
            final(self)@ == old(self)@.remove(document@),
    {
        self.membership.forget(document);
    }
}

} // verus!
