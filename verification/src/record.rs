//! One line, one record: a key, a delimiter, a value.

use crate::bytes::{find_byte, first_index_of, free_of, lemma_first_index_is, lemma_first_index_of};
use crate::decimal::{literal_value, representable, Decimal};
use crate::error::Error;
use vstd::prelude::*;
use vstd::slice::slice_subrange;
use vstd::slice::slice_to_vec;
use vstd::string::StringSliceAdditionalSpecFns;
use vstd::utf8::valid_utf8;

verus! {

/// The field delimiter.
pub const DELIMITER: u8 = 0x3B;

/// A parsed line.
#[derive(Clone, Debug, PartialEq, Eq)]
pub struct Record {
    pub key: Vec<u8>,
    pub value: Decimal,
}

/// `core::str::Utf8Error`, the error of `core::str::from_utf8`: carried, never
/// looked into.
#[verifier::external_type_specification]
#[verifier::external_body]
pub struct ExUtf8Error(core::str::Utf8Error);

/// `core::str::from_utf8` accepts a byte slice exactly when it is well-formed
/// UTF-8, and the string it then returns has those bytes.
pub assume_specification[ core::str::from_utf8 ](v: &[u8]) -> (res: Result<
    &str,
    core::str::Utf8Error,
>)
    ensures
        res is Ok <==> valid_utf8(v@),
        res is Ok ==> res.unwrap().spec_bytes() == v@,
;

/// The line holds a delimiter, and no second one.
pub open spec fn has_one_delimiter(line: Seq<u8>) -> bool {
    let at = first_index_of(line, DELIMITER);
    at < line.len() && free_of(line.skip(at + 1), DELIMITER)
}

/// What stands before the first delimiter.
pub open spec fn key_field(line: Seq<u8>) -> Seq<u8> {
    line.take(first_index_of(line, DELIMITER))
}

/// What stands after the first delimiter.
pub open spec fn value_field(line: Seq<u8>) -> Seq<u8> {
    line.skip(first_index_of(line, DELIMITER) + 1)
}

/// The key and the value, in units, that a line denotes, or the reason why it
/// denotes none. The checks are made in this order: encoding, shape, number.
pub open spec fn record_of(line: Seq<u8>) -> Result<(Seq<u8>, int), Error> {
    if !valid_utf8(line) {
        Err(Error::InvalidEncoding)
    } else if !has_one_delimiter(line) {
        Err(Error::MalformedRecord)
    } else if !representable(value_field(line)) {
        Err(Error::InvalidNumber)
    } else {
        Ok((key_field(line), literal_value(value_field(line))))
    }
}

impl Record {
    /// The key and the value in units.
    pub open spec fn view_pair(&self) -> (Seq<u8>, int) {
        (self.key@, self.value.value())
    }
}

/// Checks that a line is text with exactly one delimiter, and finds the
/// delimiter.
pub fn delimiter_index(line: &[u8]) -> (res: Result<usize, Error>)
    ensures
        !valid_utf8(line@) ==> res == Err::<usize, Error>(Error::InvalidEncoding),
        valid_utf8(line@) && !has_one_delimiter(line@) ==> res == Err::<usize, Error>(
            Error::MalformedRecord,
        ),
        valid_utf8(line@) && has_one_delimiter(line@) ==> res == Ok::<usize, Error>(
            first_index_of(line@, DELIMITER) as usize,
        ),
{
    if std::str::from_utf8(line).is_err() {
        return Err(Error::InvalidEncoding);
    }
    let n = line.len();
    let at = find_byte(line, 0, DELIMITER);
    proof {
        assert(line@.subrange(0, at as int) =~= line@.take(at as int));
        lemma_first_index_is(line@, DELIMITER, at as int);
    }
    if at == n {
        return Err(Error::MalformedRecord);
    }
    let second = find_byte(line, at + 1, DELIMITER);
    if second < n {
        proof {
            assert(line@.skip(at + 1)[second - at - 1] == DELIMITER);
        }
        return Err(Error::MalformedRecord);
    }
    proof {
        assert(line@.subrange(at + 1, n as int) =~= line@.skip(at + 1));
    }
    Ok(at)
}

/// Parses one line into its record.
pub fn parse_line(line: &[u8]) -> (res: Result<Record, Error>)
    ensures
        match res {
            Ok(record) => record_of(line@) == Ok::<(Seq<u8>, int), Error>(record.view_pair()),
            Err(e) => record_of(line@) == Err::<(Seq<u8>, int), Error>(e),
        },
{
    let at = match delimiter_index(line) {
        Ok(at) => at,
        Err(e) => {
            return Err(e);
        },
    };
    let n = line.len();
    proof {
        lemma_first_index_of(line@, DELIMITER);
        assert(line@.subrange(at + 1, n as int) =~= line@.skip(at + 1));
        assert(line@.subrange(0, at as int) =~= line@.take(at as int));
    }
    let value = match Decimal::parse(slice_subrange(line, at + 1, n)) {
        Ok(v) => v,
        Err(e) => {
            return Err(e);
        },
    };
    let key = slice_to_vec(slice_subrange(line, 0, at));
    Ok(Record { key, value })
}

} // verus!
