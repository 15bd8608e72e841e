use vstd::prelude::*;

verus! {

/// Errors returned by PE parsing and binary analysis.
#[derive(Debug)]
pub enum Error {
    /// The input does not contain a valid supported PE image.
    InvalidPe(String),
    /// The image uses an unsupported architecture or PE mode.
    Unsupported(String),
    /// The requested address is outside executable code.
    OutsideCode(u64),
    /// The requested address is not part of a recovered function.
    NoFunction(u64),
    /// The function contains bytes that cannot be decoded safely.
    Decode(u64),
    /// The input is not a valid analysis index.
    InvalidIndex(String),
}

/// The mathematical value of an [`Error`]: the same variants, with messages
/// as character sequences.
pub enum ErrorModel {
    InvalidPe(Seq<char>),
    Unsupported(Seq<char>),
    OutsideCode(u64),
    NoFunction(u64),
    Decode(u64),
    InvalidIndex(Seq<char>),
}

impl View for Error {
    type V = ErrorModel;

    open spec fn view(&self) -> ErrorModel {
        match self {
            Error::InvalidPe(m) => ErrorModel::InvalidPe(m@),
            Error::Unsupported(m) => ErrorModel::Unsupported(m@),
            Error::OutsideCode(a) => ErrorModel::OutsideCode(*a),
            Error::NoFunction(a) => ErrorModel::NoFunction(*a),
            Error::Decode(a) => ErrorModel::Decode(*a),
            Error::InvalidIndex(m) => ErrorModel::InvalidIndex(m@),
        }
    }
}

/// A result with its error taken by its view.
pub open spec fn result_view<T>(r: Result<T, Error>) -> Result<T, ErrorModel> {
    match r {
        Ok(v) => Ok(v),
        Err(e) => Err(e@),
    }
}

/// `e` is an `InvalidPe` error carrying the message `msg`.
pub open spec fn is_invalid_pe(e: Error, msg: Seq<char>) -> bool {
    e matches Error::InvalidPe(m) && m@ == msg
}

/// `e` is an `Unsupported` error carrying the message `msg`.
pub open spec fn is_unsupported(e: Error, msg: Seq<char>) -> bool {
    e matches Error::Unsupported(m) && m@ == msg
}

/// `e` is an `InvalidIndex` error carrying the message `msg`.
pub open spec fn is_invalid_index(e: Error, msg: Seq<char>) -> bool {
    e matches Error::InvalidIndex(m) && m@ == msg
}

/// Builds an `InvalidPe` error from a message.
pub fn invalid_pe(msg: &str) -> (e: Error)
    ensures
        is_invalid_pe(e, msg@),
{
    Error::InvalidPe(String::from_str(msg))
}

/// Builds an `InvalidIndex` error from a message.
pub fn invalid_index(msg: &str) -> (e: Error)
    ensures
        is_invalid_index(e, msg@),
{
    Error::InvalidIndex(String::from_str(msg))
}

} // verus!
