//! Errors reported by the script runtime.
use vstd::prelude::*;

verus! {

/// Why a runtime operation failed.
#[derive(Debug)]
pub enum DispatchError {
    /// A snapshot could not be written or read back.
    SaveState { message: String },
    /// An actor has no registered class.
    UnregisteredActor { actor: usize },
    /// An actor has no instance state.
    ActiveActorContext { actor: usize },
    /// An object handle names no live object.
    InvalidObjectHandle { handle: i32 },
    /// No actor index is left.
    ObjectLimit,
}

/// Builds the error that a snapshot operation reports.
pub fn save_error(message: &str) -> (e: DispatchError)
    ensures
        e matches DispatchError::SaveState { message: m } && m@ == message@,
{
    DispatchError::SaveState { message: message.to_owned() }
}

} // verus!
