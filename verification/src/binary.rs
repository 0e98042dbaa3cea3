//! The records of the store as bytes, one after the other.
//!
//! A record is written as one byte for the version of the format, four
//! bytes for the length of its message, the bytes of the message, eight
//! bytes for the time it was made and one byte for its mark. Numbers are
//! written with their highest byte first.

use vstd::prelude::*;
use vstd::string::StringSliceAdditionalSpecFns;
use vstd::utf8::{decode_utf8, encode_utf8, valid_utf8};
use crate::identity::{sha256_hex, TodoID};
use crate::record::{Todo, TodoTime, TodoView};

verus! {

/// The version of the format that is written.
pub const FORMAT_VERSION: u8 = 1;

/// Why bytes could not be read as records.
#[derive(Debug, PartialEq, Eq, Clone, Copy, Structural)]
pub enum BinaryError {
    /// The bytes end in the middle of a record.
    EmptyData,
    /// The bytes of a message are no UTF-8.
    NotUtf8,
}

/// What an error says to the user.
pub open spec fn binary_error_message(error: BinaryError) -> Seq<char> {
    match error {
        BinaryError::EmptyData => "empty data"@,
        BinaryError::NotUtf8 => "message was not in utf-8"@,
    }
}

impl BinaryError {
    /// What the error says to the user.
    pub fn message(&self) -> (message: &'static str)
        ensures
            message@ == binary_error_message(*self),
    {
        match self {
            BinaryError::EmptyData => "empty data",
            BinaryError::NotUtf8 => "message was not in utf-8",
        }
    }
}

/// The lowest `width` bytes of `value`, the highest of them first.
pub open spec fn be_bytes(value: int, width: nat) -> Seq<u8>
    decreases width,
{
    if width == 0 {
        Seq::empty()
    } else {
        be_bytes(value / 256, (width - 1) as nat).push((value % 256) as u8)
    }
}

/// The number that `bytes` write, the highest byte first.
pub open spec fn be_value(bytes: Seq<u8>) -> int
    decreases bytes.len(),
{
    if bytes.len() == 0 {
        0
    } else {
        be_value(bytes.drop_last()) * 256 + bytes.last()
    }
}

/// A signed number of 64 bits as the unsigned number with the same bits.
pub open spec fn as_unsigned(value: i64) -> int {
    if value >= 0 {
        value as int
    } else {
        value + 0x1_0000_0000_0000_0000
    }
}

/// An unsigned number of 64 bits as the signed number with the same bits.
pub open spec fn as_signed(value: int) -> i64 {
    if value < 0x8000_0000_0000_0000 {
        value as i64
    } else {
        (value - 0x1_0000_0000_0000_0000) as i64
    }
}

/// The bytes of one record.
pub open spec fn encoded(todo: TodoView) -> Seq<u8> {
    seq![FORMAT_VERSION] + be_bytes(encode_utf8(todo.message).len() as int % 0x1_0000_0000, 4)
        + encode_utf8(todo.message) + be_bytes(as_unsigned(todo.created_at.0), 8) + seq![
        if todo.done {
            1u8
        } else {
            0u8
        },
    ]
}

/// The bytes of the records of `todos`, one record after the other.
pub open spec fn encoded_all(todos: Seq<TodoView>) -> Seq<u8>
    decreases todos.len(),
{
    if todos.len() == 0 {
        Seq::empty()
    } else {
        encoded_all(todos.drop_last()) + encoded(todos.last())
    }
}

/// The record that `stream` starts with, and the bytes that follow it.
///
/// The version byte is not looked at. The identity of the record is the
/// digest of its message, and the record is marked as done unless its last
/// byte is 0.
pub open spec fn decode_one(stream: Seq<u8>) -> Result<(TodoView, Seq<u8>), BinaryError> {
    if stream.len() < 5 {
        Err(BinaryError::EmptyData)
    } else {
        let n = be_value(stream.subrange(1, 5));
        if stream.len() < 5 + n {
            Err(BinaryError::EmptyData)
        } else if !valid_utf8(stream.subrange(5, 5 + n)) {
            Err(BinaryError::NotUtf8)
        } else if stream.len() < 14 + n {
            Err(BinaryError::EmptyData)
        } else {
            let message = decode_utf8(stream.subrange(5, 5 + n));
            Ok(
                (
                    TodoView {
                        id: sha256_hex(message),
                        message,
                        created_at: TodoTime(as_signed(be_value(stream.subrange(5 + n, 13 + n)))),
                        done: stream[13 + n] != 0,
                    },
                    stream.skip(14 + n),
                ),
            )
        }
    }
}

/// The records that `stream` is made of, or the first error that reading
/// them meets.
pub open spec fn decode_all(stream: Seq<u8>) -> Result<Seq<TodoView>, BinaryError>
    decreases stream.len(),
    via decode_all_decreases
{
    if stream.len() == 0 {
        Ok(Seq::empty())
    } else {
        match decode_one(stream) {
            Ok((todo, rest)) => match decode_all(rest) {
                Ok(todos) => Ok(seq![todo] + todos),
                Err(error) => Err(error),
            },
            Err(error) => Err(error),
        }
    }
}

#[via_fn]
proof fn decode_all_decreases(stream: Seq<u8>) {
    if stream.len() >= 5 {
        lemma_be_value_bounds(stream.subrange(1, 5));
    }
}

/// The number that bytes write is not negative, and less than 256 to the
/// power of their count.
pub proof fn lemma_be_value_bounds(bytes: Seq<u8>)
    ensures
        0 <= be_value(bytes),
        bytes.len() == 4 ==> be_value(bytes) < 0x1_0000_0000,
        bytes.len() == 8 ==> be_value(bytes) < 0x1_0000_0000_0000_0000,
    decreases bytes.len(),
{
    if bytes.len() > 0 {
        lemma_be_value_bounds(bytes.drop_last());
    }
    if bytes.len() == 4 || bytes.len() == 8 {
        reveal_with_fuel(be_value, 9);
    }
}

/// Four bytes write every number below 2 to the power of 32 so that it can
/// be read back, and eight bytes every number below 2 to the power of 64.
pub proof fn lemma_be_value_of_be_bytes(value: int, width: nat)
    requires
        width == 4 || width == 8,
        0 <= value,
        width == 4 ==> value < 0x1_0000_0000,
        width == 8 ==> value < 0x1_0000_0000_0000_0000,
    ensures
        be_bytes(value, width).len() == width,
        be_value(be_bytes(value, width)) == value,
{
    lemma_be_round_trip(value, width);
    if width == 4 {
        assert(value / 256 / 256 / 256 / 256 == 0);
    } else {
        assert(value / 256 / 256 / 256 / 256 / 256 / 256 / 256 / 256 == 0);
    }
    lemma_be_high_part(value, width);
}

/// Reading back what was written gives the part of the number that the
/// bytes can hold.
proof fn lemma_be_round_trip(value: int, width: nat)
    requires
        0 <= value,
    ensures
        be_bytes(value, width).len() == width,
        be_value(be_bytes(value, width)) + high_part(value, width) == value,
    decreases width,
{
    if width > 0 {
        lemma_be_round_trip(value / 256, (width - 1) as nat);
        let front = be_bytes(value / 256, (width - 1) as nat);
        let all = front.push((value % 256) as u8);
        assert(all.drop_last() =~= front);
        assert(high_part(value, width) == high_part(value / 256, (width - 1) as nat) * 256);
    }
}

/// The part of `value` that `width` bytes cannot hold.
spec fn high_part(value: int, width: nat) -> int
    decreases width,
{
    if width == 0 {
        value
    } else {
        high_part(value / 256, (width - 1) as nat) * 256
    }
}

proof fn lemma_be_high_part(value: int, width: nat)
    requires
        width == 4 || width == 8,
        width == 4 ==> value / 256 / 256 / 256 / 256 == 0,
        width == 8 ==> value / 256 / 256 / 256 / 256 / 256 / 256 / 256 / 256 == 0,
    ensures
        high_part(value, width) == 0,
{
    reveal_with_fuel(high_part, 9);
}

/// `String::from_utf8`, with its error dropped: the string whose bytes are
/// `bytes`, or `None` where `bytes` are no UTF-8.
#[verifier::external_body]
fn string_from_utf8(bytes: Vec<u8>) -> (text: Option<String>)
    ensures
        text is Some == valid_utf8(bytes@),
        text is Some ==> encode_utf8(text->0@) == bytes@,
{
    String::from_utf8(bytes).ok()
}

/// The lowest four bytes of `length`, the highest of them first.
pub fn into_int_bytes(length: usize) -> (bytes: [u8; 4])
    ensures
        bytes@ == be_bytes(length as int % 0x1_0000_0000, 4),
{
    let low: u64 = length as u64 % 0x1_0000_0000;
    let bytes: [u8; 4] = [
        (low / 0x100_0000) as u8,
        (low / 0x1_0000 % 0x100) as u8,
        (low / 0x100 % 0x100) as u8,
        (low % 0x100) as u8,
    ];
    proof {
        reveal_with_fuel(be_bytes, 5);
        assert(bytes@ =~= be_bytes(low as int, 4));
    }
    bytes
}

/// The eight bytes of `nanos`, the highest first.
pub fn into_time_bytes(nanos: i64) -> (bytes: [u8; 8])
    ensures
        bytes@ == be_bytes(as_unsigned(nanos), 8),
{
    let bits: u64 = if nanos >= 0 {
        nanos as u64
    } else {
        (nanos - i64::MIN) as u64 + 0x8000_0000_0000_0000
    };
    let bytes: [u8; 8] = [
        (bits / 0x100_0000_0000_0000) as u8,
        (bits / 0x1_0000_0000_0000 % 0x100) as u8,
        (bits / 0x100_0000_0000 % 0x100) as u8,
        (bits / 0x1_0000_0000 % 0x100) as u8,
        (bits / 0x100_0000 % 0x100) as u8,
        (bits / 0x1_0000 % 0x100) as u8,
        (bits / 0x100 % 0x100) as u8,
        (bits % 0x100) as u8,
    ];
    proof {
        reveal_with_fuel(be_bytes, 9);
        assert(bytes@ =~= be_bytes(bits as int, 8));
    }
    bytes
}

/// The number that four bytes write, the highest byte first.
fn from_int_bytes(bytes: &Vec<u8>) -> (value: u32)
    requires
        bytes@.len() == 4,
    ensures
        value == be_value(bytes@),
{
    proof {
        reveal_with_fuel(be_value, 5);
        assert(bytes@.drop_last().drop_last().drop_last().drop_last() =~= Seq::<u8>::empty());
    }
    let value: u64 = bytes[0] as u64 * 0x100_0000 + bytes[1] as u64 * 0x1_0000 + bytes[2] as u64
        * 0x100 + bytes[3] as u64;
    value as u32
}

/// The signed number that eight bytes write, the highest byte first.
fn from_time_bytes(bytes: &Vec<u8>) -> (nanos: i64)
    requires
        bytes@.len() == 8,
    ensures
        nanos == as_signed(be_value(bytes@)),
{
    let mut bits: u64 = 0;
    let mut i: usize = 0;
    proof {
        assert(bytes@.take(0) =~= Seq::<u8>::empty());
    }
    while i < 8
        invariant
            i <= 8,
            bytes@.len() == 8,
            bits == be_value(bytes@.take(i as int)),
            i < 8 ==> bits < 0x100_0000_0000_0000,
        decreases 8 - i,
    {
        proof {
            assert(bytes@.take(i + 1).drop_last() =~= bytes@.take(i as int));
            lemma_be_value_bounds(bytes@.take(i + 1));
            if i + 1 < 8 {
                lemma_be_value_prefix_bound(bytes@.take(i + 1));
            }
        }
        bits = bits * 0x100 + bytes[i] as u64;
        i += 1;
    }
    proof {
        assert(bytes@.take(8) =~= bytes@);
    }
    if bits < 0x8000_0000_0000_0000 {
        bits as i64
    } else {
        (bits - 0x8000_0000_0000_0000) as i64 + i64::MIN
    }
}

/// Fewer than eight bytes write a number below 256 to the power of seven.
proof fn lemma_be_value_prefix_bound(bytes: Seq<u8>)
    requires
        bytes.len() <= 7,
    ensures
        be_value(bytes) < 0x100_0000_0000_0000,
{
    reveal_with_fuel(be_value, 8);
}

/// Puts `bytes` at the end of `data`.
fn append_bytes(data: &mut Vec<u8>, bytes: &[u8])
    ensures
        final(data)@ == old(data)@ + bytes@,
{
    let mut i: usize = 0;
    proof {
        assert(data@ =~= old(data)@ + bytes@.take(0));
    }
    while i < bytes.len()
        invariant
            i <= bytes.len(),
            data@ == old(data)@ + bytes@.take(i as int),
        decreases bytes.len() - i,
    {
        data.push(bytes[i]);
        proof {
            assert(bytes@.take(i + 1) =~= bytes@.take(i as int).push(bytes@[i as int]));
            assert(data@ =~= old(data)@ + bytes@.take(i + 1));
        }
        i += 1;
    }
    proof {
        assert(bytes@.take(bytes.len() as int) =~= bytes@);
    }
}

/// Takes the next byte off a stream that is held with its first byte last.
fn pop_byte(data: &mut Vec<u8>) -> (byte: Option<u8>)
    ensures
        byte is Some == (old(data)@.len() > 0),
        byte is Some ==> {
            &&& byte->0 == old(data)@.reverse()[0]
            &&& final(data)@.reverse() == old(data)@.reverse().skip(1)
        },
        byte is None ==> final(data)@ == old(data)@,
{
    let byte = data.pop();
    proof {
        if byte is Some {
            assert(data@.reverse() =~= old(data)@.reverse().skip(1));
        }
    }
    byte
}

/// Takes the next `count` bytes off a stream that is held with its first
/// byte last. Where the stream is shorter, all of it is taken and nothing is
/// returned.
fn pop_bytes(data: &mut Vec<u8>, count: usize) -> (bytes: Option<Vec<u8>>)
    ensures
        bytes is Some == (count <= old(data)@.len()),
        bytes is Some ==> {
            &&& bytes->0@ == old(data)@.reverse().take(count as int)
            &&& final(data)@.reverse() == old(data)@.reverse().skip(count as int)
        },
        bytes is None ==> final(data)@.len() == 0,
{
    let ghost stream = data@.reverse();
    let mut bytes: Vec<u8> = Vec::new();
    let mut i: usize = 0;
    proof {
        assert(bytes@ =~= stream.take(0));
        assert(data@.reverse() =~= stream.skip(0));
    }
    while i < count
        invariant
            i <= count,
            stream == old(data)@.reverse(),
            i <= stream.len(),
            bytes@ == stream.take(i as int),
            data@.reverse() == stream.skip(i as int),
        decreases count - i,
    {
        let ghost before = data@;
        match pop_byte(data) {
            Some(byte) => {
                bytes.push(byte);
                proof {
                    assert(before.reverse().len() == before.len());
                    assert(stream.skip(i as int).skip(1) =~= stream.skip(i + 1));
                    assert(stream.take(i + 1) =~= stream.take(i as int).push(stream[i as int]));
                }
            },
            None => {
                proof {
                    assert(before.reverse().len() == before.len());
                }
                return None;
            },
        }
        i += 1;
    }
    Some(bytes)
}

impl Todo {
    /// The bytes of this record.
    pub fn to_binary(&self) -> (data: Vec<u8>)
        ensures
            data@ == encoded(self@),
    {
        let message_bin = self.message.as_str().as_bytes();

        let time_bin = into_time_bytes(self.created_at.0);
        let done_bin: u8 = if self.done {
            1
        } else {
            0
        };

        let mut data: Vec<u8> = Vec::new();
        data.push(FORMAT_VERSION);
        let length = into_int_bytes(message_bin.len());
        append_bytes(&mut data, length.as_slice());
        append_bytes(&mut data, message_bin);
        append_bytes(&mut data, time_bin.as_slice());
        data.push(done_bin);
        proof {
            assert(data@ =~= encoded(self@));
        }
        data
    }

    /// Reads one record off a stream that is held with its first byte last,
    /// and takes its bytes off the stream.
    ///
    /// Where the stream ends in the middle of the record, all of it is
    /// taken. Where the message is no UTF-8, the stream is left after the
    /// bytes of the message.
    pub fn from_binary(data: &mut Vec<u8>) -> (todo: Result<Todo, BinaryError>)
        ensures
            match decode_one(old(data)@.reverse()) {
                Ok((record, rest)) => {
                    &&& todo matches Ok(read)
                    &&& read@ == record
                    &&& final(data)@.reverse() == rest
                },
                Err(error) => todo matches Err(found) && found == error,
            },
            todo matches Err(BinaryError::EmptyData) ==> final(data)@.len() == 0,
            todo matches Err(BinaryError::NotUtf8) ==> final(data)@.reverse() == after_message(
                old(data)@.reverse(),
            ),
    {
        let ghost stream = data@.reverse();
        assert(stream.len() == data@.len());
        let _version_byte = match pop_byte(data) {
            Some(byte) => byte,
            None => {
                return Err(BinaryError::EmptyData);
            },
        };
        assert(data@.reverse().len() == data@.len());

        let message_len = match pop_bytes(data, 4) {
            Some(bytes) => bytes,
            None => {
                return Err(BinaryError::EmptyData);
            },
        };
        proof {
            assert(stream.skip(1).take(4) =~= stream.subrange(1, 5));
            assert(stream.skip(1).skip(4) =~= stream.skip(5));
            assert(data@.reverse().len() == data@.len());
        }
        let message_len = from_int_bytes(&message_len);
        let ghost n = message_len as int;

        let message = match pop_bytes(data, message_len as usize) {
            Some(bytes) => bytes,
            None => {
                return Err(BinaryError::EmptyData);
            },
        };
        proof {
            assert(stream.skip(5).take(n) =~= stream.subrange(5, 5 + n));
            assert(stream.skip(5).skip(n) =~= stream.skip(5 + n));
            assert(data@.reverse().len() == data@.len());
        }
        let message = match string_from_utf8(message) {
            Some(text) => text,
            None => {
                return Err(BinaryError::NotUtf8);
            },
        };
        proof {
            vstd::utf8::encode_utf8_decode_utf8(message@);
        }

        let timestamp_nanos = match pop_bytes(data, 8) {
            Some(bytes) => bytes,
            None => {
                return Err(BinaryError::EmptyData);
            },
        };
        proof {
            assert(stream.skip(5 + n).take(8) =~= stream.subrange(5 + n, 13 + n));
            assert(stream.skip(5 + n).skip(8) =~= stream.skip(13 + n));
            assert(data@.reverse().len() == data@.len());
        }
        let timestamp_nanos = from_time_bytes(&timestamp_nanos);
        let todo_time = TodoTime(timestamp_nanos);

        let is_done_byte = match pop_byte(data) {
            Some(byte) => byte,
            None => {
                return Err(BinaryError::EmptyData);
            },
        };
        proof {
            assert(stream.skip(13 + n).skip(1) =~= stream.skip(14 + n));
        }

        Ok(
            Self {
                id: TodoID::hash_message(message.as_str()),
                message,
                created_at: todo_time,
                done: is_done_byte != 0,
            },
        )
    }
}

/// What is left of a stream after the message of its first record.
pub open spec fn after_message(stream: Seq<u8>) -> Seq<u8> {
    stream.skip(5 + be_value(stream.subrange(1, 5)))
}

/// The result of reading on after the records `done` have been read.
pub open spec fn read_after(
    done: Seq<TodoView>,
    rest: Result<Seq<TodoView>, BinaryError>,
) -> Result<Seq<TodoView>, BinaryError> {
    match rest {
        Ok(todos) => Ok(done + todos),
        Err(error) => Err(error),
    }
}

/// Turns `data` round: its last byte comes first.
fn reverse_bytes(data: &mut Vec<u8>)
    ensures
        final(data)@ == old(data)@.reverse(),
{
    let mut turned: Vec<u8> = Vec::new();
    let n = data.len();
    let mut i: usize = n;
    while i > 0
        invariant
            i <= n,
            n == data@.len(),
            data@ == old(data)@,
            turned@.len() == n - i,
            forall|k: int| 0 <= k < n - i ==> turned@[k] == data@[n - 1 - k],
        decreases i,
    {
        i -= 1;
        turned.push(data[i]);
    }
    proof {
        assert(turned@ =~= old(data)@.reverse());
    }
    *data = turned;
}

/// Reads the records that `data` is made of, and takes them off `data`.
pub fn get_todos_from_binary(data: &mut Vec<u8>) -> (todos: Result<Vec<Todo>, BinaryError>)
    ensures
        match decode_all(old(data)@) {
            Ok(records) => {
                &&& todos matches Ok(read)
                &&& read.deep_view() == records
                &&& final(data)@.len() == 0
            },
            Err(error) => todos matches Err(found) && found == error,
        },
{
    if data.is_empty() {
        let todos: Vec<Todo> = Vec::new();
        proof {
            assert(todos.deep_view() =~= Seq::<TodoView>::empty());
        }
        return Ok(todos);
    }
    let ghost all = data@;
    let mut todos: Vec<Todo> = Vec::new();

    reverse_bytes(data);
    proof {
        assert(data@.reverse() =~= all);
        assert(todos.deep_view() =~= Seq::<TodoView>::empty());
        match decode_all(all) {
            Ok(records) => {
                assert(Seq::<TodoView>::empty() + records =~= records);
            },
            Err(_) => {},
        }
    }
    while !data.is_empty()
        invariant
            all == old(data)@,
            decode_all(all) == read_after(todos.deep_view(), decode_all(data@.reverse())),
        decreases data@.len(),
    {
        let ghost stream = data@.reverse();
        let ghost done = todos.deep_view();
        proof {
            assert(stream.len() == data@.len());
            if stream.len() >= 5 {
                lemma_be_value_bounds(stream.subrange(1, 5));
            }
        }
        let t = match Todo::from_binary(data) {
            Ok(t) => t,
            Err(error) => {
                return Err(error);
            },
        };
        todos.push(t);
        proof {
            assert(data@.reverse().len() == data@.len());
            assert(todos.deep_view() =~= done.push(t@));
            match decode_all(data@.reverse()) {
                Ok(records) => {
                    assert(done.push(t@) + records =~= done + (seq![t@] + records));
                },
                Err(_) => {},
            }
        }
    }
    proof {
        assert(data@.reverse().len() == data@.len());
        assert(todos.deep_view() + Seq::<TodoView>::empty() =~= todos.deep_view());
    }

    Ok(todos)
}

/// The bytes of the records of `todos`, one record after the other.
pub fn convert_todos_to_binary(todos: &[Todo]) -> (data: Vec<u8>)
    ensures
        data@ == encoded_all(todos.deep_view()),
{
    let mut data: Vec<u8> = Vec::new();
    let ghost all = todos.deep_view();
    let mut i: usize = 0;
    proof {
        assert(all.take(0) =~= Seq::<TodoView>::empty());
    }
    while i < todos.len()
        invariant
            i <= todos.len(),
            all == todos.deep_view(),
            all.len() == todos.len(),
            data@ == encoded_all(all.take(i as int)),
        decreases todos.len() - i,
    {
        let record = todos[i].to_binary();
        append_bytes(&mut data, record.as_slice());
        proof {
            assert(all.take(i + 1).drop_last() =~= all.take(i as int));
            assert(all.take(i + 1).last() == todos[i as int]@);
        }
        i += 1;
    }
    proof {
        assert(all.take(todos.len() as int) =~= all);
    }
    data
}

/// Whether a record can be written so that it is read back as it is: its
/// identity is the digest of its message, and the length of its message
/// fits into four bytes.
pub open spec fn is_writable(todo: TodoView) -> bool {
    &&& todo.is_identified()
    &&& encode_utf8(todo.message).len() < 0x1_0000_0000
}

/// What is written of one record is read back as that record, and what
/// follows it is left.
pub proof fn lemma_decode_one_of_encoded(todo: TodoView, rest: Seq<u8>)
    requires
        is_writable(todo),
    ensures
        decode_one(encoded(todo) + rest) == Ok::<(TodoView, Seq<u8>), BinaryError>((todo, rest)),
{
    let message = encode_utf8(todo.message);
    let n = message.len() as int;
    let time = as_unsigned(todo.created_at.0);
    let stream = encoded(todo) + rest;
    lemma_be_value_of_be_bytes(n, 4);
    lemma_be_value_of_be_bytes(time, 8);
    vstd::utf8::encode_utf8_valid_utf8(todo.message);
    vstd::utf8::encode_utf8_decode_utf8(todo.message);
    assert(stream.subrange(1, 5) =~= be_bytes(n, 4));
    assert(stream.subrange(5, 5 + n) =~= message);
    assert(stream.subrange(5 + n, 13 + n) =~= be_bytes(time, 8));
    assert(stream.skip(14 + n) =~= rest);
    assert(stream[13 + n] == if todo.done {
        1u8
    } else {
        0u8
    });
    assert(as_signed(time) == todo.created_at.0);
}

/// The bytes of some records are those of the first record, then those of
/// the records after it.
pub proof fn lemma_encoded_all_front(todos: Seq<TodoView>)
    requires
        todos.len() > 0,
    ensures
        encoded_all(todos) == encoded(todos[0]) + encoded_all(todos.drop_first()),
    decreases todos.len(),
{
    if todos.len() == 1 {
        assert(todos.drop_last() =~= Seq::<TodoView>::empty());
        assert(todos.drop_first() =~= Seq::<TodoView>::empty());
        assert(encoded_all(todos) =~= encoded(todos[0]) + encoded_all(todos.drop_first()));
    } else {
        let front = todos.drop_last();
        lemma_encoded_all_front(front);
        assert(front.drop_first() =~= todos.drop_first().drop_last());
        assert(todos.drop_first().last() == todos.last());
        assert(encoded_all(todos) =~= encoded(todos[0]) + encoded_all(todos.drop_first()));
    }
}

/// What is written of some records is read back as those records.
pub proof fn lemma_decode_all_of_encoded(todos: Seq<TodoView>)
    requires
        forall|i: int| 0 <= i < todos.len() ==> is_writable(#[trigger] todos[i]),
    ensures
        decode_all(encoded_all(todos)) == Ok::<Seq<TodoView>, BinaryError>(todos),
    decreases todos.len(),
{
    if todos.len() == 0 {
        assert(decode_all(encoded_all(todos)) == Ok::<Seq<TodoView>, BinaryError>(
            Seq::empty(),
        ));
        assert(todos =~= Seq::<TodoView>::empty());
    } else {
        let tail = todos.drop_first();
        assert(forall|i: int| 0 <= i < tail.len() ==> tail[i] == todos[i + 1]);
        lemma_encoded_all_front(todos);
        lemma_decode_one_of_encoded(todos[0], encoded_all(tail));
        lemma_decode_all_of_encoded(tail);
        assert(encoded(todos[0]).len() > 0);
        assert(seq![todos[0]] + tail =~= todos);
    }
}

} // verus!
