//! The queries that a Flight client sends.

use vstd::prelude::*;
#[allow(unused_imports)]
use vstd::utf8::{decode_utf8, encode_utf8, valid_utf8};

use crate::text::{trim, utf8_text};
#[allow(unused_imports)]
use crate::text::{is_space, law_white_space_is_trimmed, trimmed};

verus! {

/// Why a query was refused.
#[derive(Clone, Copy, Debug, PartialEq, Eq, Structural)]
pub enum QueryError {
    InvalidText,
    Empty,
}

impl QueryError {
    /// What the error says.
    pub open spec fn text(&self) -> Seq<char> {
        match self {
            QueryError::InvalidText => "query must be valid UTF-8 SQL"@,
            QueryError::Empty => "query must not be empty"@,
        }
    }

    /// The text of the error.
    pub fn message(&self) -> (message: &'static str)
        ensures
            message@ == self.text(),
    {
        match self {
            QueryError::InvalidText => "query must be valid UTF-8 SQL",
            QueryError::Empty => "query must not be empty",
        }
    }
}

/// The query that bytes hold: text with more than white space in it.
pub open spec fn query_of(bytes: Seq<u8>) -> Result<Seq<char>, QueryError> {
    if !valid_utf8(bytes) {
        Err(QueryError::InvalidText)
    } else if trimmed(decode_utf8(bytes)).len() == 0 {
        Err(QueryError::Empty)
    } else {
        Ok(decode_utf8(bytes))
    }
}

/// Reads a query from bytes.
pub fn query_from_bytes(bytes: &[u8]) -> (result: Result<String, QueryError>)
    ensures
        match result {
            Ok(query) => query_of(bytes@) == Ok::<Seq<char>, QueryError>(query@),
            Err(error) => query_of(bytes@) == Err::<Seq<char>, QueryError>(error),
        },
{
    match utf8_text(bytes) {
        None => Err(QueryError::InvalidText),
        Some(query) => {
            if trim(query.as_str()).is_empty() {
                Err(QueryError::Empty)
            } else {
                Ok(query)
            }
        },
    }
}

/// Every text with a character that is no white space is a query, as it stands, and no other text
/// is. Bytes that are no text are told from text that is no query.
pub proof fn law_queries_are_texts_that_are_not_blank(query: Seq<char>, bytes: Seq<u8>)
    ensures
        query_of(encode_utf8(query)) == (if exists|i: int|
            0 <= i < query.len() && !is_space(#[trigger] query[i]) {
            Ok::<Seq<char>, QueryError>(query)
        } else {
            Err(QueryError::Empty)
        }),
        !valid_utf8(bytes) <==> query_of(bytes) == Err::<Seq<char>, QueryError>(
            QueryError::InvalidText,
        ),
        query_of(bytes) matches Ok(text) ==> encode_utf8(text) == bytes,
{
    broadcast use vstd::utf8::encode_utf8_valid_utf8;
    broadcast use vstd::utf8::encode_utf8_decode_utf8;
    broadcast use vstd::utf8::decode_utf8_encode_utf8;

    law_white_space_is_trimmed(query);
}

} // verus!
