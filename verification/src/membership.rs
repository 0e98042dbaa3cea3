//! Which tasks each open document held when it was last reconciled.

use vstd::prelude::*;
use dashmap::DashMap;

verus! {

/// `dashmap::DashMap`, a hash map that can be shared between threads.
#[verifier::external_type_specification]
#[verifier::external_body]
#[verifier::reject_recursive_types(K)]
#[verifier::reject_recursive_types(V)]
#[verifier::reject_recursive_types(S)]
pub struct ExDashMap<K, V, S>(DashMap<K, V, S>);

/// What a map from documents to identities holds: for each document that
/// has an entry, the identities of that entry, in their order.
pub uninterp spec fn entries_of(table: DashMap<String, Vec<String>>) -> Map<
    Seq<char>,
    Seq<Seq<char>>,
>;

/// What is kept of the documents: the identities of each one that is
/// tracked, in their order.
pub type Entries = Map<Seq<char>, Seq<Seq<char>>>;

/// No document is tracked.
pub open spec fn no_entries() -> Entries {
    Map::empty()
}

/// Whether no document holds an identity twice: the identities of a
/// document are a set, kept in the order in which the document held them.
pub open spec fn each_identity_once(entries: Entries) -> bool {
    forall|document: Seq<char>|
        entries.contains_key(document) ==> (#[trigger] entries[document]).no_duplicates()
}

/// `DashMap::new`: a map without entries.
#[verifier::external_body]
fn map_new() -> (table: DashMap<String, Vec<String>>)
    ensures
        entries_of(table) == no_entries(),
{
    DashMap::new()
}

/// `DashMap::get`, with a copy of the value that was found: the entry of
/// `document`, or `None` where it has none. The map is left as it was.
#[verifier::external_body]
fn map_get(table: &DashMap<String, Vec<String>>, document: &str) -> (ids: Option<Vec<String>>)
    ensures
        ids is Some == entries_of(*table).contains_key(document@),
        ids is Some ==> ids->0.deep_view() == entries_of(*table)[document@],
{
    match table.get(document) {
        Some(entry) => Some(entry.value().clone()),
        None => None,
    }
}

/// `DashMap::insert`: `document` gets the entry `ids`, in place of the one
/// it had, if any. The other entries stay.
#[verifier::external_body]
fn map_insert(table: &mut DashMap<String, Vec<String>>, document: String, ids: Vec<String>)
    ensures
        entries_of(*final(table)) == entries_of(*old(table)).insert(document@, ids.deep_view()),
{
    table.insert(document, ids);
}

/// `DashMap::remove`: `document` loses its entry, if it had one. The other
/// entries stay.
#[verifier::external_body]
fn map_remove(table: &mut DashMap<String, Vec<String>>, document: &str)
    ensures
        entries_of(*final(table)) == entries_of(*old(table)).remove(document@),
{
    table.remove(document);
}

/// For each open document, the identities of the tasks that it held when it
/// was last reconciled.
pub struct BufferMembership {
    seen: DashMap<String, Vec<String>>,
}

impl View for BufferMembership {
    type V = Entries;

    closed spec fn view(&self) -> Entries {
        entries_of(self.seen)
    }
}

impl BufferMembership {
    /// The invariant of the type: no document holds an identity twice.
    pub open spec fn wf(&self) -> bool {
        each_identity_once(self@)
    }

    /// The identities last seen in `document`, and none for a document that
    /// is not tracked.
    pub open spec fn last_seen(&self, document: Seq<char>) -> Seq<Seq<char>> {
        if self@.contains_key(document) {
            self@[document]
        } else {
            Seq::empty()
        }
    }

    /// A membership in which no document is tracked.
    pub fn new() -> (membership: BufferMembership)
        ensures
            membership@ == no_entries(),
            membership.wf(),
    {
        BufferMembership { seen: map_new() }
    }

    /// The identities last seen in `document`, each of them once.
    pub fn get(&self, document: &str) -> (ids: Vec<String>)
        requires
            self.wf(),
        ensures
            ids.deep_view() == self.last_seen(document@),
            ids.deep_view().no_duplicates(),
    {
        match map_get(&self.seen, document) {
            Some(ids) => ids,
            None => {
                let ids: Vec<String> = Vec::new();
                assert(ids.deep_view() =~= Seq::<Seq<char>>::empty());
                ids
            },
        }
    }

    /// Replaces what was last seen in `document` by `ids`, which hold no
    /// identity twice.
    pub fn set(&mut self, document: &str, ids: Vec<String>)
        requires
            old(self).wf(),
            ids.deep_view().no_duplicates(),
        ensures
            final(self)@ == old(self)@.insert(document@, ids.deep_view()),
            final(self).wf(),
    {
        map_insert(&mut self.seen, document.to_owned(), ids);
    }

    /// Forgets `document`: it is no longer tracked.
    pub fn forget(&mut self, document: &str)
        requires
            old(self).wf(),
        ensures
            final(self)@ == old(self)@.remove(document@),
            final(self).wf(),
    {
        map_remove(&mut self.seen, document);
    }
}

} // verus!
