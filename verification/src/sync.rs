//! Carrying out a reconciliation on the list of the store.

use vstd::prelude::*;
use crate::collection::{
    first_index, has_id, lemma_first_index_from, TodoArrayList, TodoCollection,
};
use crate::parser::Outcome;
use crate::reconcile::{
    find_record, ids_of, kept_messages, lemma_kept_ids_distinct, lemma_reconcile_converges,
    lemma_retracted_iff_gone, lemma_upsert_identity, reconciles, Reconciliation,
    ReconciliationView,
};
use crate::record::{Todo, TodoView};

verus! {

/// `list` without the first record that has the identity `id`, if there is
/// one.
pub open spec fn retracted(list: Seq<TodoView>, id: Seq<char>) -> Seq<TodoView> {
    if has_id(list, id) {
        list.remove(first_index(list, id))
    } else {
        list
    }
}

/// `list` with `record` at its end, in place of the first record with the
/// same identity, if there is one.
pub open spec fn upserted(list: Seq<TodoView>, record: TodoView) -> Seq<TodoView> {
    retracted(list, record.id).push(record)
}

/// `list` after each of `records` was put into it, in their order.
pub open spec fn upserted_all(list: Seq<TodoView>, records: Seq<TodoView>) -> Seq<TodoView>
    decreases records.len(),
{
    if records.len() == 0 {
        list
    } else {
        upserted(upserted_all(list, records.drop_last()), records.last())
    }
}

/// `list` after each of `ids` was taken out of it, in their order.
pub open spec fn retracted_all(list: Seq<TodoView>, ids: Seq<Seq<char>>) -> Seq<TodoView>
    decreases ids.len(),
{
    if ids.len() == 0 {
        list
    } else {
        retracted(retracted_all(list, ids.drop_last()), ids.last())
    }
}

/// `list` after a reconciliation was carried out on it: its upserts are put
/// in, then its retractions are taken out.
pub open spec fn applied(list: Seq<TodoView>, result: ReconciliationView) -> Seq<TodoView> {
    retracted_all(upserted_all(list, result.upserts), result.retractions)
}

/// Puts `todo` at the end of `list`, in place of the first record with the
/// same identity, if there is one.
pub fn upsert(list: &mut TodoArrayList, todo: Todo)
    ensures
        final(list)@ == upserted(old(list)@, todo@),
{
    let _ = list.remove(todo.id.0.as_str());
    list.add_todo(todo);
}

/// Carries out `result` on `list`.
pub fn apply(list: &mut TodoArrayList, result: &Reconciliation)
    ensures
        final(list)@ == applied(old(list)@, result@),
{
    let ghost upserts = result@.upserts;
    let ghost retractions = result@.retractions;
    let mut i: usize = 0;
    proof {
        assert(upserts.take(0) =~= Seq::<TodoView>::empty());
    }
    while i < result.upserts.len()
        invariant
            i <= result.upserts.len(),
            upserts == result@.upserts,
            upserts.len() == result.upserts.len(),
            list@ == upserted_all(old(list)@, upserts.take(i as int)),
        decreases result.upserts.len() - i,
    {
        upsert(list, result.upserts[i].clone());
        proof {
            assert(upserts.take(i + 1).drop_last() =~= upserts.take(i as int));
            assert(upserts.take(i + 1).last() == result.upserts[i as int]@);
        }
        i += 1;
    }
    proof {
        assert(upserts.take(result.upserts.len() as int) =~= upserts);
    }
    let ghost filled = list@;
    let mut j: usize = 0;
    proof {
        assert(retractions.take(0) =~= Seq::<Seq<char>>::empty());
    }
    while j < result.retractions.len()
        invariant
            j <= result.retractions.len(),
            retractions == result@.retractions,
            retractions.len() == result.retractions.len(),
            list@ == retracted_all(filled, retractions.take(j as int)),
        decreases result.retractions.len() - j,
    {
        let _ = list.remove(result.retractions[j].0.as_str());
        proof {
            assert(retractions.take(j + 1).drop_last() =~= retractions.take(j as int));
            assert(retractions.take(j + 1).last() == result.retractions[j as int]@);
        }
        j += 1;
    }
    proof {
        assert(retractions.take(result.retractions.len() as int) =~= retractions);
    }
}

/// What is found in a list with one more record at its end.
pub proof fn lemma_find_after_push(list: Seq<TodoView>, record: TodoView, id: Seq<char>)
    ensures
        find_record(list.push(record), id) == if record.id == id {
            Some(record)
        } else {
            find_record(list, id)
        },
{
    assert(list.push(record).drop_last() =~= list);
}

/// Taking a record of another identity out of a list does not change what
/// is found under an identity.
pub proof fn lemma_find_after_remove(list: Seq<TodoView>, index: int, id: Seq<char>)
    requires
        0 <= index < list.len(),
        list[index].id != id,
    ensures
        find_record(list.remove(index), id) == find_record(list, id),
    decreases list.len(),
{
    let rest = list.remove(index);
    if index == list.len() - 1 {
        assert(rest =~= list.drop_last());
    } else {
        assert(rest.last() == list.last());
        assert(rest.drop_last() =~= list.drop_last().remove(index));
        if list.last().id != id {
            lemma_find_after_remove(list.drop_last(), index, id);
        }
    }
}

/// Retracting another identity does not change what is found under an
/// identity.
pub proof fn lemma_find_after_retracted(list: Seq<TodoView>, gone: Seq<char>, id: Seq<char>)
    requires
        gone != id,
    ensures
        find_record(retracted(list, gone), id) == find_record(list, id),
{
    if has_id(list, gone) {
        lemma_first_index_from(list, gone, 0);
        lemma_find_after_remove(list, first_index(list, gone), id);
    }
}

/// After records of different identities were put into a list, each of
/// them is what is found under its identity.
pub proof fn lemma_find_after_upserted_all(list: Seq<TodoView>, records: Seq<TodoView>, k: int)
    requires
        0 <= k < records.len(),
        forall|i: int, j: int|
            0 <= i < j < records.len() ==> (#[trigger] records[i]).id != (#[trigger] records[j]).id,
    ensures
        find_record(upserted_all(list, records), records[k].id) == Some(records[k]),
    decreases records.len(),
{
    let front = records.drop_last();
    let last = records.last();
    let before = upserted_all(list, front);
    lemma_find_after_push(retracted(before, last.id), last, records[k].id);
    if k < records.len() - 1 {
        assert(forall|i: int| 0 <= i < front.len() ==> front[i] == records[i]);
        lemma_find_after_upserted_all(list, front, k);
        assert(records[k].id != records[records.len() - 1].id);
        lemma_find_after_retracted(before, last.id, records[k].id);
    }
}

/// Retracting identities does not change what is found under an identity
/// that is not among them.
pub proof fn lemma_find_after_retracted_all(
    list: Seq<TodoView>,
    gone: Seq<Seq<char>>,
    id: Seq<char>,
)
    requires
        !gone.contains(id),
    ensures
        find_record(retracted_all(list, gone), id) == find_record(list, id),
    decreases gone.len(),
{
    if gone.len() > 0 {
        let front = gone.drop_last();
        assert(forall|i: int| 0 <= i < front.len() ==> front[i] == gone[i]);
        assert(gone[gone.len() - 1] == gone.last());
        lemma_find_after_retracted_all(list, front, id);
        lemma_find_after_retracted(retracted_all(list, front), gone.last(), id);
    }
}

/// Once a reconciliation is carried out, the list holds each of its
/// upserts under the identity of the upsert.
pub proof fn lemma_applied_holds_upserts(
    list: Seq<TodoView>,
    previous: Seq<Seq<char>>,
    outcome: Seq<Outcome>,
    store: Seq<TodoView>,
    result: ReconciliationView,
    k: int,
)
    requires
        reconciles(previous, outcome, store, result),
        0 <= k < result.upserts.len(),
    ensures
        find_record(applied(list, result), result.upserts[k].id) == Some(result.upserts[k]),
{
    let kept = kept_messages(outcome);
    let ids = ids_of(kept);
    lemma_kept_ids_distinct(outcome);
    assert forall|i: int| 0 <= i < result.upserts.len() implies (#[trigger] result.upserts[i]).id
        == ids[i] by {
        lemma_upsert_identity(store, kept[i], result.upserts[i]);
    }
    assert forall|i: int, j: int| 0 <= i < j < result.upserts.len() implies (
    #[trigger] result.upserts[i]).id != (#[trigger] result.upserts[j]).id by {
        assert(ids[i] != ids[j]);
    }
    lemma_find_after_upserted_all(list, result.upserts, k);
    lemma_retracted_iff_gone(previous, ids, result.upserts[k].id);
    assert(ids.contains(ids[k]));
    lemma_find_after_retracted_all(
        upserted_all(list, result.upserts),
        result.retractions,
        result.upserts[k].id,
    );
}

/// Reconciling a text, carrying the result out and reconciling the same
/// text again asks for the same records as they are in the store, and
/// retracts nothing.
pub proof fn lemma_reconcile_twice(
    previous: Seq<Seq<char>>,
    outcome: Seq<Outcome>,
    store: Seq<TodoView>,
    first: ReconciliationView,
    second: ReconciliationView,
)
    requires
        reconciles(previous, outcome, store, first),
        reconciles(ids_of(kept_messages(outcome)), outcome, applied(store, first), second),
    ensures
        second.upserts == first.upserts,
        second.retractions == Seq::<Seq<char>>::empty(),
{
    assert forall|k: int| 0 <= k < first.upserts.len() implies find_record(
        applied(store, first),
        (#[trigger] first.upserts[k]).id,
    ) == Some(first.upserts[k]) by {
        lemma_applied_holds_upserts(store, previous, outcome, store, first, k);
    }
    lemma_reconcile_converges(previous, outcome, store, first, applied(store, first), second);
}

} // verus!
