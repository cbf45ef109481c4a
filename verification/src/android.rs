//! What can fail on Android.

use vstd::prelude::*;
use vstd::string::*;

verus! {

#[derive(Debug)]
pub enum AndroidBackendError {
    NotInitialized,
    Operation { operation: &'static str, details: String },
}

impl AndroidBackendError {
    /// A failure during `operation`.
    #[must_use]
    pub fn operation<D: Into<String>>(operation: &'static str, details: D) -> (error: Self)
        requires
            call_requires(<D as Into<String>>::into, (details,)),
        ensures
            error matches AndroidBackendError::Operation { operation: named, details: text } && {
                &&& named@ == operation@
                &&& call_ensures(<D as Into<String>>::into, (details,), text)
            },
    {
        AndroidBackendError::Operation { operation, details: details.into() }
    }

    pub fn message(&self) -> (message: String)
        ensures
            message@ == match self {
                AndroidBackendError::NotInitialized => "android runtime was not initialized"@,
                AndroidBackendError::Operation { operation, details } => {
                    "android backend failed during "@ + operation@ + ": "@ + details@
                },
            },
    {
        match self {
            AndroidBackendError::NotInitialized => String::from_str(
                "android runtime was not initialized",
            ),
            AndroidBackendError::Operation { operation, details } => {
                let mut message = String::from_str("android backend failed during ");
                message.append(operation);
                message.append(": ");
                message.append(details.as_str());
                message
            },
        }
    }
}

} // verus!
