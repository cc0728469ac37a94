//! What can go wrong, and how it is told.

use vstd::prelude::*;
use vstd::string::StringExecFns;
use ha_ndarray::Error as NdError;

verus! {

/// The operating system's error type. Nothing is claimed of its values.
#[verifier::external_type_specification]
#[verifier::external_body]
pub struct ExIoError(std::io::Error);

/// The numerical backend's error type. Nothing is claimed of its values.
#[verifier::external_type_specification]
#[verifier::external_body]
pub struct ExNdError(NdError);

#[derive(Debug)]
pub enum Error {
    Io(std::io::Error),
    Nd(NdError),
    InvalidSchema(String),
    InvalidCoord(String),
    InvalidLayout(String),
    SparseIndex(String),
    UnsupportedSparseIterationOrder {
        requested_order: Vec<usize>,
        base_order: Vec<usize>,
        hint: String,
    },
    Unsupported(String),
    DataMismatch(String),
}

pub type Result<T> = std::result::Result<T, Error>;

/// How `Debug` writes a list of numbers.
pub uninterp spec fn listed(items: Seq<usize>) -> Seq<char>;

/// `std::fmt`'s `{:?}` on a slice of numbers. What it writes is named, not spelled out.
#[verifier::external_body]
fn list(items: &[usize]) -> (text: String)
    ensures
        text@ == listed(items@),
{
    format!("{:?}", items)
}

impl From<std::io::Error> for Error {
    fn from(cause: std::io::Error) -> (error: Self) {
        Error::Io(cause)
    }
}

impl vstd::std_specs::convert::FromSpecImpl<std::io::Error> for Error {
    open spec fn obeys_from_spec() -> bool {
        true
    }

    open spec fn from_spec(cause: std::io::Error) -> Self {
        Error::Io(cause)
    }
}

impl From<NdError> for Error {
    fn from(cause: NdError) -> (error: Self) {
        Error::Nd(cause)
    }
}

impl vstd::std_specs::convert::FromSpecImpl<NdError> for Error {
    open spec fn obeys_from_spec() -> bool {
        true
    }

    open spec fn from_spec(cause: NdError) -> Self {
        Error::Nd(cause)
    }
}

impl Error {
    /// The text shown to a person. Causes from outside tell their own.
    pub fn message(&self) -> (text: String)
        ensures
            match *self {
                Error::Io(cause) => vstd::string::to_string_from_display_ensures::<std::io::Error>(&cause, text),
                Error::Nd(cause) => vstd::string::to_string_from_display_ensures::<NdError>(&cause, text),
                Error::InvalidSchema(cause) => text@ == cause@,
                Error::InvalidCoord(cause) => text@ == cause@,
                Error::InvalidLayout(cause) => text@ == cause@,
                Error::SparseIndex(cause) => text@ == cause@,
                Error::UnsupportedSparseIterationOrder {
                    requested_order,
                    base_order,
                    hint,
                } => text@ == "unsupported sparse iteration order: requested "@ + listed(
                    requested_order@,
                ) + ", base "@ + listed(base_order@) + ". "@ + hint@,
                Error::Unsupported(cause) => text@ == cause@,
                Error::DataMismatch(cause) => text@ == cause@,
            },
    {
        match self {
            Error::Io(cause) => cause.to_string(),
            Error::Nd(cause) => cause.to_string(),
            Error::InvalidSchema(cause) => cause.clone(),
            Error::InvalidCoord(cause) => cause.clone(),
            Error::InvalidLayout(cause) => cause.clone(),
            Error::SparseIndex(cause) => cause.clone(),
            Error::UnsupportedSparseIterationOrder { requested_order, base_order, hint } => {
                "unsupported sparse iteration order: requested ".to_string().concat(
                    list(requested_order.as_slice()).as_str(),
                ).concat(", base ").concat(list(base_order.as_slice()).as_str()).concat(
                    ". ",
                ).concat(hint.as_str())
            },
            Error::Unsupported(cause) => cause.clone(),
            Error::DataMismatch(cause) => cause.clone(),
        }
    }
}

/// The text is what a number shows as.
pub open spec fn shows(number: usize, text: Seq<char>) -> bool {
    exists|shown: String| #[trigger]
        vstd::string::to_string_from_display_ensures::<usize>(&number, shown) && shown@ == text
}

/// An error text that names an axis.
pub(crate) fn axis_message(before: &str, axis: usize, after: &str) -> (text: String)
    ensures
        exists|digits: Seq<char>| #[trigger]
            shows(axis, digits) && text@ == before@ + digits + after@,
{
    let digits = axis.to_string();
    assert(shows(axis, digits@));
    before.to_string().concat(digits.as_str()).concat(after)
}

} // verus!
