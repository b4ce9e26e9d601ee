//! A DNS toolkit: the wire format of DNS messages (RFC 1035), with a
//! verified serializer and parser, TXT record data, a cache of answers and
//! the list of root name servers.

pub mod cache;
pub mod hints;
pub mod protocol;
pub mod proxy;
pub mod sys;

use std::string::FromUtf8Error;
use vstd::prelude::*;

verus! {

/// A domain name or one of its labels does not fit the limits of RFC 1035.
#[derive(Debug)]
pub enum NamingError {
    /// The whole name is longer than the limit.
    InvalidNameSize { name: String },
    /// One label of the name is longer than the limit.
    InvalidLabelSize { label: String },
}

/// A text record entry does not fit the limits of the format.
#[derive(Debug)]
pub enum TextError {
    /// An entry is longer than the limit.
    InvalidNameSize { text: String },
}

/// A value met in a message that the format does not allow there.
#[derive(Debug)]
pub struct UnexpectedValueError(pub(crate) String);

impl View for UnexpectedValueError {
    type V = Seq<char>;

    /// The text of the description.
    closed spec fn view(&self) -> Seq<char> {
        self.0@
    }
}

impl UnexpectedValueError {
    /// Builds the error from its description.
    pub fn new(message: String) -> (res: Self)
        ensures
            res@ == message@,
    {
        UnexpectedValueError(message)
    }

    /// The description of the error.
    pub fn message(&self) -> (res: &String)
        ensures
            res@ == self@,
    {
        &self.0
    }
}

/// Why a sequence of bytes could not be read as DNS data.
#[derive(Debug)]
pub enum ParseError {
    /// A name or a label is longer than its limit.
    InvalidStringSize { expected_max: usize, actual: usize },
    /// The data ends before the field that is being read.
    InvalidSliceSize,
    /// A label is not valid UTF-8.
    CharacterConversion(FromUtf8Error),
    /// A field holds a value that is not allowed there.
    UnexpectedValue(UnexpectedValueError),
}

/// A message that should be a query is not one.
#[derive(Debug, PartialEq, Eq)]
pub enum QueryMessageError {
    /// The message holds no question.
    NoQuestions,
    /// The message is flagged as a response.
    NotQuery,
}

/// A message that should be a response is not one.
#[derive(Debug, PartialEq, Eq)]
pub enum ResponseMessageError {
    /// The message holds no question.
    NoQuestions,
    /// The message is flagged as a query.
    NotResponse,
}

} // verus!
