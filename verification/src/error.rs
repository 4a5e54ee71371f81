use vstd::prelude::*;

verus! {

/// The closed set of decode failures.
///
/// Encoding never fails: a value that cannot satisfy a range invariant is
/// rejected at construction time, not at encode time.
#[derive(Clone, Copy, Debug, PartialEq, Eq)]
pub enum Error {
    /// Structurally decodable, but not the unique minimal form.
    NonCanonicalEncoding,
    /// Buffer too short or internally inconsistent to decode at all.
    MalformedEncoding,
    /// A decoded length exceeds a caller-imposed maximum.
    TooLargeAlloc,
    /// A decoded magnitude does not fit the target fixed-width type.
    OverFlowError,
    /// Collaborator-defined decode failure, propagated unchanged.
    Custom(&'static str),
}

impl Error {
    /// A short description of the error.
    pub fn message(&self) -> (r: &'static str)
        ensures
            self is NonCanonicalEncoding ==> r@ == "non canonical encoding"@,
            self is MalformedEncoding ==> r@ == "malformed encoding"@,
            self is TooLargeAlloc ==> r@ == "too large allocation"@,
            self is OverFlowError ==> r@ == "value overflow"@,
            self matches Error::Custom(m) ==> r == m,
    {
        match self {
            Error::NonCanonicalEncoding => "non canonical encoding",
            Error::MalformedEncoding => "malformed encoding",
            Error::TooLargeAlloc => "too large allocation",
            Error::OverFlowError => "value overflow",
            Error::Custom(m) => m,
        }
    }
}

} // verus!
