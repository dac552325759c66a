//! The log of finished work: one record per work interval, as a line of
//! comma-separated fields, kept in a record store.

use crate::error::SessionError;
use crate::text::{decimal, push_decimal};
use vstd::prelude::*;
use vstd::string::*;
use vstd::utf8::{
    encode_scalar, encode_utf8, last_continuation_byte, leading_byte_width_1,
    leading_byte_width_2, leading_byte_width_3, leading_byte_width_4,
    second_last_continuation_byte, third_last_continuation_byte,
};

verus! {

/// The byte that parts two fields: a comma.
pub const DELIMITER: u8 = 0x2C;

/// The byte that encloses a field that cannot stand bare: a double quote.
pub const QUOTE: u8 = 0x22;

/// The byte that ends a record: a line feed.
pub const TERMINATOR: u8 = 0x0A;

/// The carriage return, which a reader takes for the end of a record too.
pub const CARRIAGE_RETURN: u8 = 0x0D;

/// Whether `byte` has a meaning of its own in a line of records.
pub open spec fn is_special(byte: u8) -> bool {
    byte == DELIMITER || byte == QUOTE || byte == TERMINATOR || byte == CARRIAGE_RETURN
}

/// Whether `field` holds no special byte, so that it is written as it stands.
pub open spec fn is_plain(field: Seq<u8>) -> bool {
    forall|i: int| 0 <= i < field.len() ==> !is_special(#[trigger] field[i])
}

/// `field` with each of its quotes written twice.
pub open spec fn quotes_doubled(field: Seq<u8>) -> Seq<u8>
    decreases field.len(),
{
    if field.len() == 0 {
        Seq::empty()
    } else if field.last() == QUOTE {
        quotes_doubled(field.drop_last()).push(QUOTE).push(QUOTE)
    } else {
        quotes_doubled(field.drop_last()).push(field.last())
    }
}

/// `field` as it stands in a record: bare where it is plain, else between
/// quotes and with its own quotes doubled.
pub open spec fn written_field(field: Seq<u8>) -> Seq<u8> {
    if is_plain(field) {
        field
    } else {
        seq![QUOTE] + quotes_doubled(field) + seq![QUOTE]
    }
}

/// The line that holds the three fields of one record.
pub open spec fn record_line(task: Seq<u8>, minutes: Seq<u8>, stamp: Seq<u8>) -> Seq<u8> {
    written_field(task) + seq![DELIMITER] + written_field(minutes) + seq![DELIMITER]
        + written_field(stamp) + seq![TERMINATOR]
}

/// The record of one finished work interval: the task, the length of the
/// interval in minutes as a decimal numeral, and the time of completion.
pub open spec fn work_record(task: Seq<char>, minutes: nat, stamp: Seq<char>) -> Seq<u8> {
    record_line(encode_utf8(task), encode_utf8(decimal(minutes)), encode_utf8(stamp))
}

/// Number of bytes of `line` before its first delimiter.
pub open spec fn first_field_length(line: Seq<u8>) -> nat
    decreases line.len(),
{
    if line.len() == 0 || line.first() == DELIMITER {
        0
    } else {
        1 + first_field_length(line.drop_first())
    }
}

/// The first field of a line whose first field is bare: all that stands
/// before the first delimiter.
pub open spec fn first_field(line: Seq<u8>) -> Seq<u8> {
    line.take(first_field_length(line) as int)
}

/// Whether `c` is a comma, a double quote, a line feed or a carriage return.
pub open spec fn is_special_char(c: char) -> bool {
    c == ',' || c == '"' || c == '\n' || c == '\r'
}

/// Whether `text` holds none of these characters.
pub open spec fn is_plain_text(text: Seq<char>) -> bool {
    forall|i: int| 0 <= i < text.len() ==> !is_special_char(#[trigger] text[i])
}

/// The bytes of one character are special only where the character is.
proof fn lemma_plain_char(c: char)
    requires
        !is_special_char(c),
    ensures
        is_plain(encode_scalar(c as u32)),
{
    let scalar = c as u32;
    let bytes = encode_scalar(scalar);
    assert(scalar != 0x2C && scalar != 0x22 && scalar != 0x0A && scalar != 0x0D);
    assert(scalar <= 0x7F ==> leading_byte_width_1(scalar) == scalar) by (bit_vector);
    assert(leading_byte_width_2(scalar) >= 0x80) by (bit_vector);
    assert(leading_byte_width_3(scalar) >= 0x80) by (bit_vector);
    assert(leading_byte_width_4(scalar) >= 0x80) by (bit_vector);
    assert(last_continuation_byte(scalar) >= 0x80) by (bit_vector);
    assert(second_last_continuation_byte(scalar) >= 0x80) by (bit_vector);
    assert(third_last_continuation_byte(scalar) >= 0x80) by (bit_vector);
    assert forall|i: int| 0 <= i < bytes.len() implies !is_special(#[trigger] bytes[i]) by {}
}

/// Text without special characters has no special byte: the bytes of a
/// character that is not ASCII are none of them ASCII.
pub proof fn lemma_plain_text(text: Seq<char>)
    requires
        is_plain_text(text),
    ensures
        is_plain(encode_utf8(text)),
    decreases text.len(),
{
    if text.len() > 0 {
        let head = encode_scalar(text[0] as u32);
        let rest = text.drop_first();
        assert(!is_special_char(text[0]));
        lemma_plain_char(text[0]);
        assert forall|i: int| 0 <= i < rest.len() implies !is_special_char(#[trigger] rest[i]) by {
            assert(rest[i] == text[i + 1]);
        }
        lemma_plain_text(rest);
        let tail = encode_utf8(rest);
        assert forall|i: int| 0 <= i < (head + tail).len() implies !is_special(
            #[trigger] (head + tail)[i],
        ) by {
            if i < head.len() {
                assert((head + tail)[i] == head[i]);
            } else {
                assert((head + tail)[i] == tail[i - head.len()]);
            }
        }
    }
}

/// A task without special characters is found again as it was written: its
/// bytes are the first field of its record, whatever the other fields hold.
pub proof fn lemma_first_field(task: Seq<char>, minutes: nat, stamp: Seq<char>)
    requires
        is_plain_text(task),
    ensures
        first_field(work_record(task, minutes, stamp)) == encode_utf8(task),
{
    lemma_plain_text(task);
    let field = encode_utf8(task);
    let tail = seq![DELIMITER] + written_field(encode_utf8(decimal(minutes))) + seq![DELIMITER]
        + written_field(encode_utf8(stamp)) + seq![TERMINATOR];
    assert(work_record(task, minutes, stamp) =~= field + tail);
    lemma_bare_prefix(field, tail);
}

/// A line that starts with plain bytes and then a delimiter has those bytes
/// as its first field.
proof fn lemma_bare_prefix(field: Seq<u8>, tail: Seq<u8>)
    requires
        is_plain(field),
        tail.len() > 0,
        tail.first() == DELIMITER,
    ensures
        first_field_length(field + tail) == field.len(),
        first_field(field + tail) == field,
    decreases field.len(),
{
    let line = field + tail;
    if field.len() == 0 {
        assert(line =~= tail);
    } else {
        assert(!is_special(field[0]));
        assert(line.first() == field[0]);
        let shorter = field.drop_first();
        assert forall|i: int| 0 <= i < shorter.len() implies !is_special(
            #[trigger] shorter[i],
        ) by {
            assert(shorter[i] == field[i + 1]);
        }
        assert(line.drop_first() =~= shorter + tail);
        lemma_bare_prefix(shorter, tail);
    }
    assert(line.take(field.len() as int) =~= field);
}

/// `csv::Error`, the error of the `csv` crate. Nothing inside it is looked at.
#[verifier::external_type_specification]
#[verifier::external_body]
pub struct ExCsvError(csv::Error);

/// `csv::Writer::from_writer` on an empty vector, `write_record` with the
/// three fields, and `into_inner`. The writer is a fresh one with the crate's
/// defaults: fields are parted by commas and the record ends with a line
/// feed; a field that holds a comma, a quote, a line feed or a carriage
/// return is put between quotes with its quotes doubled, and every other
/// field is copied as it is. Writing into a vector does not fail, and the
/// first record of a writer fixes the number of fields, so the result is `Ok`.
#[verifier::external_body]
fn encode_record(task: &str, minutes: &str, stamp: &str) -> (encoded: Result<Vec<u8>, csv::Error>)
    ensures
        encoded is Ok,
        encoded matches Ok(bytes) ==> bytes@ == record_line(task.spec_bytes(), minutes.spec_bytes(), stamp.spec_bytes()),
{
    let mut writer = csv::Writer::from_writer(Vec::new());
    writer.write_record([task, minutes, stamp])?;
    match writer.into_inner() {
        Ok(bytes) => Ok(bytes),
        Err(failure) => Err(csv::Error::from(failure.into_error())),
    }
}

/// The `Display` text of a `csv::Error`. Nothing is claimed of it.
#[verifier::external_body]
fn describe(error: &csv::Error) -> String {
    error.to_string()
}

/// `chrono::Local::now`, rendered by its `Display`: the local date and time
/// of the call. Nothing is claimed of the text, which differs from call to
/// call. The call fails only where the system clock reads a time before 1970
/// or beyond the years that `chrono` can hold.
#[verifier::external_body]
pub(crate) fn local_timestamp() -> String {
    chrono::Local::now().to_string()
}

/// Builds the record of one finished work interval.
pub fn format_record(task: &str, minutes: u64, stamp: &str) -> (record: Result<
    Vec<u8>,
    SessionError,
>)
    ensures
        record matches Ok(bytes) && bytes@ == work_record(task@, minutes as nat, stamp@),
{
    let mut numeral = String::new();
    push_decimal(&mut numeral, minutes as u128);
    assert(numeral@ =~= decimal(minutes as nat));
    match encode_record(task, numeral.as_str(), stamp) {
        Ok(bytes) => Ok(bytes),
        Err(error) => Err(SessionError::Store(describe(&error))),
    }
}

/// What a store holds after `data` is written to it: `data` alone, whatever
/// it `held` before.
pub open spec fn overwritten(held: Seq<u8>, data: Seq<u8>) -> Seq<u8> {
    data
}

/// Of two records written one after the other, only the second is left in the
/// store: nothing of the first record, nor of what the store held before it,
/// stays.
pub proof fn lemma_second_record_stands_alone(
    held: Seq<u8>,
    first_task: Seq<char>,
    first_stamp: Seq<char>,
    second_task: Seq<char>,
    second_stamp: Seq<char>,
    minutes: nat,
)
    ensures
        overwritten(
            overwritten(held, work_record(first_task, minutes, first_stamp)),
            work_record(second_task, minutes, second_stamp),
        ) == work_record(second_task, minutes, second_stamp),
        is_plain_text(second_task) ==> first_field(
            overwritten(
                overwritten(held, work_record(first_task, minutes, first_stamp)),
                work_record(second_task, minutes, second_stamp),
            ),
        ) == encode_utf8(second_task),
{
    if is_plain_text(second_task) {
        lemma_first_field(second_task, minutes, second_stamp);
    }
}

/// A store for the log of finished work. Writing to it replaces what it held.
/// A store in general promises nothing that could be checked here; a
/// `reliable` one holds what was written last.
pub trait RecordStore {
    /// The bytes that a reliable store holds.
    open spec fn contents(&self) -> Seq<u8> {
        Seq::empty()
    }

    /// Whether writing to this store never fails, and `contents` is what it
    /// holds.
    open spec fn reliable(&self) -> bool {
        false
    }

    /// Creates the store anew with `data` as its whole content.
    fn overwrite(&mut self, data: &[u8]) -> (done: Result<(), SessionError>)
        ensures
            old(self).reliable() ==> {
                &&& final(self).reliable()
                &&& done is Ok
                &&& final(self).contents() == overwritten(old(self).contents(), data@)
            },
    ;
}

/// A record store held in memory.
#[derive(Debug, PartialEq, Eq)]
pub struct MemoryStore {
    /// The bytes that the store holds.
    pub bytes: Vec<u8>,
}

impl MemoryStore {
    /// An empty store.
    pub fn new() -> (store: MemoryStore)
        ensures
            store.contents() == Seq::<u8>::empty(),
            store.reliable(),
    {
        MemoryStore { bytes: Vec::new() }
    }
}

impl RecordStore for MemoryStore {
    open spec fn contents(&self) -> Seq<u8> {
        self.bytes@
    }

    open spec fn reliable(&self) -> bool {
        true
    }

    fn overwrite(&mut self, data: &[u8]) -> (done: Result<(), SessionError>) {
        self.bytes = vstd::slice::slice_to_vec(data);
        Ok(())
    }
}

} // verus!
