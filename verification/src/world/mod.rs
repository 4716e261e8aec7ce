//! The script runtime's state and the snapshots taken of it.

pub mod convert;
pub mod runtime;
pub mod capture;
pub mod restore;
pub mod transient;
pub mod roundtrip;
pub mod apply;
pub mod sound;
pub mod lifecycle;
pub mod replay;
pub mod registration;
pub mod resolved;
pub mod finish;
