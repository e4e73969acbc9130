//! The error taxonomy of a run. Every variant is fatal to the whole run:
//! nothing is retried and nothing is downgraded to a warning.

use vstd::prelude::*;

verus! {

/// A fatal condition that aborts a run.
#[derive(Debug)]
pub enum CiError {
    /// The orchestration plan could not be extracted from the configuration
    /// document; `name` is a subflake key that appeared more than once.
    ConfigError { name: Vec<u8> },
    /// The requested platform-list reference could not be evaluated.
    SystemResolutionError { reference: Vec<u8> },
    /// The pre-flight health check failed with its own exit code;
    /// orchestration never begins.
    HealthGateFailure { exit_code: i32 },
    /// A step within a subflake failed; the whole run aborts.
    StepExecutionError {
        subflake: Vec<u8>,
        step: Vec<u8>,
        system: Vec<u8>,
        diagnostic: Vec<u8>,
    },
    /// The forwarded remote invocation returned a non-zero exit status.
    RemoteDispatchError { exit_code: i32 },
    /// The run result could not be written to the requested destination.
    IoError { path: Vec<u8> },
}

/// Mathematical image of a `CiError`.
pub enum CiErrorView {
    ConfigError { name: Seq<u8> },
    SystemResolutionError { reference: Seq<u8> },
    HealthGateFailure { exit_code: i32 },
    StepExecutionError {
        subflake: Seq<u8>,
        step: Seq<u8>,
        system: Seq<u8>,
        diagnostic: Seq<u8>,
    },
    RemoteDispatchError { exit_code: i32 },
    IoError { path: Seq<u8> },
}

impl View for CiError {
    type V = CiErrorView;

    open spec fn view(&self) -> CiErrorView {
        match self {
            CiError::ConfigError { name } => CiErrorView::ConfigError { name: name@ },
            CiError::SystemResolutionError { reference } => CiErrorView::SystemResolutionError {
                reference: reference@,
            },
            CiError::HealthGateFailure { exit_code } => CiErrorView::HealthGateFailure {
                exit_code: *exit_code,
            },
            CiError::StepExecutionError { subflake, step, system, diagnostic } => {
                CiErrorView::StepExecutionError {
                    subflake: subflake@,
                    step: step@,
                    system: system@,
                    diagnostic: diagnostic@,
                }
            },
            CiError::RemoteDispatchError { exit_code } => CiErrorView::RemoteDispatchError {
                exit_code: *exit_code,
            },
            CiError::IoError { path } => CiErrorView::IoError { path: path@ },
        }
    }
}

/// Decides the pre-flight health gate: a zero exit code from the health
/// check lets orchestration begin, any other aborts the run with that code.
pub fn health_gate(exit_code: i32) -> (r: Result<(), CiError>)
    ensures
        exit_code == 0 ==> r is Ok,
        exit_code != 0 ==> (r matches Err(e) && e@ == CiErrorView::HealthGateFailure {
            exit_code,
        }),
{
    if exit_code == 0 {
        Ok(())
    } else {
        Err(CiError::HealthGateFailure { exit_code })
    }
}

/// Relays a remote invocation's exit status: zero means the remote run
/// succeeded, anything else becomes a `RemoteDispatchError` locally.
pub fn remote_exit(exit_code: i32) -> (r: Result<(), CiError>)
    ensures
        exit_code == 0 ==> r is Ok,
        exit_code != 0 ==> (r matches Err(e) && e@ == CiErrorView::RemoteDispatchError {
            exit_code,
        }),
{
    if exit_code == 0 {
        Ok(())
    } else {
        Err(CiError::RemoteDispatchError { exit_code })
    }
}

} // verus!
