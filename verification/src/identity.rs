//! The identity of a task: a digest of its message.

use vstd::prelude::*;
use vstd::string::StringSliceAdditionalSpecFns;

verus! {

/// The SHA-256 digest of the UTF-8 bytes of `message`, as 64 lower-case
/// hexadecimal digits.
pub uninterp spec fn sha256_hex(message: Seq<char>) -> Seq<char>;

/// `sha256::digest` on a string slice: it hashes the bytes of the slice with
/// SHA-256 and writes the digest in hexadecimal. The result depends on the
/// characters of `message` alone.
#[verifier::external_body]
fn sha256_digest(message: &str) -> (hex: String)
    ensures
        hex@ == sha256_hex(message@),
{
    sha256::digest(message)
}

/// Whether `first` and `second` hold the same text.
pub fn same_text(first: &str, second: &str) -> (same: bool)
    ensures
        same == (first@ == second@),
{
    let a = first.as_bytes();
    let b = second.as_bytes();
    proof {
        vstd::utf8::encode_utf8_decode_utf8(first@);
        vstd::utf8::encode_utf8_decode_utf8(second@);
    }
    if a.len() != b.len() {
        return false;
    }
    let mut i: usize = 0;
    while i < a.len()
        invariant
            i <= a.len(),
            a.len() == b.len(),
            a@ == first.spec_bytes(),
            b@ == second.spec_bytes(),
            forall|k: int| 0 <= k < i ==> a@[k] == b@[k],
        decreases a.len() - i,
    {
        if a[i] != b[i] {
            return false;
        }
        i += 1;
    }
    assert(a@ =~= b@);
    true
}

/// The identity of a task.
///
/// Two tasks are the same task when their identities are equal. The
/// identity of a message is its digest, so tasks with the same message are
/// the same task, and a changed message makes another task.
#[derive(Debug, PartialEq, Eq, PartialOrd, Hash)]
pub struct TodoID(pub String);

impl View for TodoID {
    type V = Seq<char>;

    open spec fn view(&self) -> Seq<char> {
        self.0@
    }
}

impl DeepView for TodoID {
    type V = Seq<char>;

    open spec fn deep_view(&self) -> Seq<char> {
        self@
    }
}

impl TodoID {
    /// The identity of the task with this message.
    pub fn hash_message(message: &str) -> (id: TodoID)
        ensures
            id@ == sha256_hex(message@),
    {
        TodoID(sha256_digest(message))
    }

    /// Whether this identity and `other` are the same.
    pub fn same_as(&self, other: &TodoID) -> (same: bool)
        ensures
            same == (self@ == other@),
    {
        self.0 == other.0
    }
}

impl From<String> for TodoID {
    fn from(value: String) -> (id: TodoID) {
        Self(value)
    }
}

impl vstd::std_specs::convert::FromSpecImpl<String> for TodoID {
    open spec fn obeys_from_spec() -> bool {
        true
    }

    open spec fn from_spec(value: String) -> TodoID {
        TodoID(value)
    }
}

impl<'a> From<&'a str> for TodoID {
    fn from(value: &'a str) -> (id: TodoID)
        ensures
            id@ == value@,
    {
        Self(value.to_owned())
    }
}

impl<'a> vstd::std_specs::convert::FromSpecImpl<&'a str> for TodoID {
    /// A string slice does not say which string is made of it, only which
    /// characters that string holds: see the contract of `from`.
    open spec fn obeys_from_spec() -> bool {
        false
    }

    open spec fn from_spec(value: &'a str) -> TodoID {
        arbitrary()
    }
}

impl Clone for TodoID {
    fn clone(&self) -> (id: TodoID)
        ensures
            id@ == self@,
    {
        TodoID(self.0.clone())
    }
}

/// The identity of a message depends on the message alone: equal messages
/// have equal identities.
pub proof fn lemma_identity_is_pure(first: Seq<char>, second: Seq<char>)
    requires
        first == second,
    ensures
        sha256_hex(first) == sha256_hex(second),
{
}

} // verus!
