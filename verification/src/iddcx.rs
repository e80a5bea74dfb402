//! Errors of calls into the indirect display driver class extension, and the
//! status codes of the operating system that stand for them.

use vstd::prelude::*;
use vstd::std_specs::convert::FromSpecImpl;

verus! {

/// The status code for something that was not found.
pub const STATUS_NOT_FOUND: i32 = -1073741275;

/// A status code of the operating system.
#[derive(Debug, Clone, Copy, PartialEq, Eq, Structural)]
pub struct NtStatus(pub i32);

/// Why a call into the class extension failed.
#[derive(Debug, Clone, Copy, PartialEq, Eq)]
pub enum IddCxError {
    /// The function is not in the function table; the text says which.
    IddCxFunctionNotAvailable(&'static str),
    /// The function was called and returned this failure status.
    CallFailed(NtStatus),
    /// A status that did not come from a call.
    NtStatus(NtStatus),
}

impl IddCxError {
    /// The status code that stands for this error: not-found for a function
    /// that is not available, else the status that the error carries.
    pub open spec fn status(self) -> NtStatus {
        match self {
            IddCxError::IddCxFunctionNotAvailable(_) => NtStatus(STATUS_NOT_FOUND),
            IddCxError::CallFailed(status) => status,
            IddCxError::NtStatus(status) => status,
        }
    }
}

impl From<IddCxError> for NtStatus {
    fn from(value: IddCxError) -> (status: Self) {
        match value {
            IddCxError::IddCxFunctionNotAvailable(_) => NtStatus(STATUS_NOT_FOUND),
            IddCxError::CallFailed(status) => status,
            IddCxError::NtStatus(status) => status,
        }
    }
}

impl FromSpecImpl<IddCxError> for NtStatus {
    open spec fn obeys_from_spec() -> bool {
        true
    }

    open spec fn from_spec(value: IddCxError) -> Self {
        value.status()
    }
}

impl From<NtStatus> for IddCxError {
    fn from(value: NtStatus) -> (error: Self) {
        IddCxError::CallFailed(value)
    }
}

impl FromSpecImpl<NtStatus> for IddCxError {
    open spec fn obeys_from_spec() -> bool {
        true
    }

    open spec fn from_spec(value: NtStatus) -> Self {
        IddCxError::CallFailed(value)
    }
}

impl From<i32> for IddCxError {
    fn from(value: i32) -> (error: Self) {
        IddCxError::NtStatus(NtStatus(value))
    }
}

impl FromSpecImpl<i32> for IddCxError {
    open spec fn obeys_from_spec() -> bool {
        true
    }

    open spec fn from_spec(value: i32) -> Self {
        IddCxError::NtStatus(NtStatus(value))
    }
}

} // verus!
