//! The refusals the monitor answers requests with.

use vstd::prelude::*;

verus! {

/// Why a request was refused.
#[derive(Debug)]
pub enum ApiError {
    /// No process has the requested pid.
    ProcessNotFound,
    /// No managed run has the requested run id.
    ManagedProcessNotFound,
    /// A launch request named a blank command.
    CommandRequired,
    /// The command could not be started; the text says why.
    LaunchFailed(String),
    /// The run's log storage could not be prepared; the text says why.
    Storage(String),
}

impl ApiError {
    /// The HTTP status code of the refusal.
    pub open spec fn spec_status(&self) -> u16 {
        match self {
            ApiError::ProcessNotFound => 404,
            ApiError::ManagedProcessNotFound => 404,
            ApiError::CommandRequired => 400,
            ApiError::LaunchFailed(_) => 400,
            ApiError::Storage(_) => 500,
        }
    }

    /// The text of the refusal.
    pub open spec fn spec_message(&self) -> Seq<char> {
        match self {
            ApiError::ProcessNotFound => "process not found"@,
            ApiError::ManagedProcessNotFound => "managed process not found"@,
            ApiError::CommandRequired => "command is required"@,
            ApiError::LaunchFailed(m) => m@,
            ApiError::Storage(m) => m@,
        }
    }

    /// The HTTP status code of the refusal.
    pub fn status_code(&self) -> (code: u16)
        ensures
            code == self.spec_status(),
    {
        match self {
            ApiError::ProcessNotFound => 404,
            ApiError::ManagedProcessNotFound => 404,
            ApiError::CommandRequired => 400,
            ApiError::LaunchFailed(_) => 400,
            ApiError::Storage(_) => 500,
        }
    }

    /// The text of the refusal.
    pub fn message(&self) -> (m: String)
        ensures
            m@ == self.spec_message(),
    {
        match self {
            ApiError::ProcessNotFound => String::from_str("process not found"),
            ApiError::ManagedProcessNotFound => String::from_str("managed process not found"),
            ApiError::CommandRequired => String::from_str("command is required"),
            ApiError::LaunchFailed(m) => m.clone(),
            ApiError::Storage(m) => m.clone(),
        }
    }
}

} // verus!
