use vstd::prelude::*;

verus! {

/// Why an operation on the memory store was refused.
#[derive(Debug)]
pub enum MemoryError {
    /// The storage layer failed.
    Storage(String),
    /// The request itself is not acceptable.
    Invalid(String),
}

/// What every operation of the store returns.
pub type Result<T> = std::result::Result<T, MemoryError>;

impl MemoryError {
    /// The text carried by the error.
    pub open spec fn detail(&self) -> Seq<char> {
        match *self {
            MemoryError::Storage(text) => text@,
            MemoryError::Invalid(text) => text@,
        }
    }

    /// The text shown to a user: what went wrong, then the detail.
    pub fn message(&self) -> (r: String)
        ensures
            *self is Storage ==> r@ == "storage error: "@ + self.detail(),
            *self is Invalid ==> r@ == "invalid memory: "@ + self.detail(),
    {
        match self {
            MemoryError::Storage(text) => String::from_str("storage error: ").concat(text.as_str()),
            MemoryError::Invalid(text) => String::from_str("invalid memory: ").concat(
                text.as_str(),
            ),
        }
    }
}

/// `r` refuses a request with the given explanation.
pub open spec fn refuses<T>(r: Result<T>, why: Seq<char>) -> bool {
    r matches Err(e) && e is Invalid && e.detail() == why
}

/// `r` reports that the storage layer failed, with the given explanation.
pub open spec fn fails<T>(r: Result<T>, why: Seq<char>) -> bool {
    r matches Err(e) && e is Storage && e.detail() == why
}

/// Wraps the text of a failure of the storage layer.
pub fn storage(error: String) -> (r: MemoryError)
    ensures
        r == MemoryError::Storage(error),
{
    MemoryError::Storage(error)
}

/// A refusal with the given explanation.
pub(crate) fn invalid(why: &str) -> (r: MemoryError)
    ensures
        r is Invalid,
        r.detail() == why@,
{
    MemoryError::Invalid(why.to_owned())
}

} // verus!
